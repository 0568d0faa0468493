pub mod resource;
pub mod virtualmachine;
pub mod virtualmachineinterface;
