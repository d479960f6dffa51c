pub mod cxl;
