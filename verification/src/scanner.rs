//! Reading codes from sampled colours: palette calibration, classification of samples into
//! cells, the layout checks and decoding attempts of the scanners, and the integer stages of
//! the image and sound pipelines.
pub mod image_scan;
pub mod image_scan_u;
pub mod contour;
pub mod audio_scan;
