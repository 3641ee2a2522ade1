//! Live data path of a Raspberry Shake UDP service.

pub mod access;
pub mod alert;
pub mod alert_laws;
pub mod arithmetic;
pub mod bignat;
pub mod buffer;
pub mod buffer_laws;
pub mod channels;
pub mod clock;
pub mod demo;
pub mod detector_laws;
pub mod display;
pub mod double;
pub mod double_laws;
pub mod number;
pub mod number_laws;
pub mod packet;
pub mod packet_laws;
pub mod rounding;
pub mod runtime;
pub mod service_laws;
pub mod session;
pub mod settings;
pub mod settings_laws;
pub mod text;
pub mod timing;
pub mod update;
