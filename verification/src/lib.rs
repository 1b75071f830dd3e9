//! Density-based anomaly detection on fixed-point feature matrices.
//!
//! A feature matrix is a two-dimensional array of `i64` fixed-point
//! coordinates. Points are grouped into density-connected clusters; points
//! that lie in no dense neighbourhood are noise, and noise is the anomaly
//! signal that the evaluation and reporting helpers consume.

pub mod density;
pub mod distance;
pub mod engine;
pub mod error;
pub mod evaluate;
pub mod matrix;
pub mod report;
pub mod theorems;

pub use engine::detect_anomalies_dbscan;
pub use error::ClusterError;
pub use evaluate::evaluate_anomalies;
pub use matrix::FeatureMatrix;
pub use report::{noise_rows, plot_groups};
