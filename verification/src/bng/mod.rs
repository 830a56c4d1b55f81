pub mod china_festival;
pub mod three_aztec_temples;
