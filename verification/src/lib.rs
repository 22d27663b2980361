pub mod load_balancer;
pub mod proxy;
