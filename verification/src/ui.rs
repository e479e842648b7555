pub mod sidebar_panels;
