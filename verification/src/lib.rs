pub mod kd_tree;
