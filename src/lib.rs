pub mod operator;
pub mod rack_model;
pub mod operator_rack;
pub mod rack_laws;
pub mod wave_container;
pub mod track_loader;
pub mod page_manager;
pub mod raster;
pub mod display;
pub mod navigation;
