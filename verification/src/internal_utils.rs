pub mod persistent_utils;
