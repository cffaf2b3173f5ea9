pub mod attribute;
pub mod constant;
pub mod field;
pub mod generic_param;
pub mod interface_impl;
pub mod member_ref;
pub mod method_def;
pub mod module_ref;
pub mod param;
pub mod type_def;
pub mod type_ref;
pub mod type_spec;
