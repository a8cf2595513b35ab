//! Ardon-R2: the core of a statistical computing system.
pub mod double;
pub mod text;
pub mod text_laws;
pub mod paths;
pub mod sort;
pub mod value;
pub mod kernel_par;
pub mod kernel;
pub mod kernel_map;
pub mod kernel_scan;
pub mod kernel_select;
pub mod kernel_rolling;
pub mod kernel_hash;
pub mod kernel_distance;
pub mod kernel_laws;
pub mod grid;
pub mod exact;
pub mod linalg;
pub mod linalg_solve;
pub mod linalg_laws;
pub mod linalg_product_laws;
pub mod linalg_cramer_laws;
pub mod stats_dist;
pub mod stats_matrix;
pub mod stats_hotelling;
pub mod grouping;
pub mod stats_design;
pub mod stats_manova;
pub mod stats_report;
pub mod stats_laws;
pub mod stats_variance_laws;
pub mod hotelling_laws;
pub mod ml_data;
pub mod ml_kmeans;
pub mod ml_tree;
pub mod ml_cv;
pub mod ml_gbm;
pub mod ml_forest;
pub mod ml_knn;
pub mod ml_prcomp;
pub mod ml_laws;
pub mod report_text;
pub mod ml_report;
pub mod ml_fit_laws;
pub mod stats_print;
pub mod device;
pub mod overlays;
pub mod drawing;
pub mod drawing_laws;
pub mod plots;
pub mod layout_laws;
pub mod console;
pub mod editor;
pub mod plotpane;
pub mod settings;
pub mod icon;
pub mod session;
pub mod repl;
pub mod line_editor;
pub mod memory;
pub mod csv;
pub mod csv_laws;
pub mod ordering;
pub mod data_laws;
pub mod frames;
pub mod report_laws;
pub mod pkg;
pub mod bytes;
pub mod r2d;
pub mod r2d_laws;
pub mod jit_ir;
pub mod jit_meaning;
pub mod jit_code;
pub mod jit_lower;
pub mod jit_emit;
pub mod jit_laws;
pub mod jit_simd;
pub mod jit_simd_laws;
pub mod jit;
pub mod jit_fold_laws;
pub mod closure_laws;
pub mod pick_laws;
