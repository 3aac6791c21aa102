pub mod relay;
