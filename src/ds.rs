pub mod disjoint_set;
