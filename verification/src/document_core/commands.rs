pub mod object_ops;
