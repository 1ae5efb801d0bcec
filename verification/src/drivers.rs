pub mod axp2101;
pub mod cst9217;
pub mod driver_laws;
pub mod pcf85063;
pub mod qmi8658;
