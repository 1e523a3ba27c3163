use vstd::prelude::*;

verus! {

/// Module storage used by the chain: whether a module exists at an account
/// address under a name, and how large its serialized form is.
pub trait AptosModuleStorage {
    fn check_module_exists(&self, address: &Vec<u8>, module_name: &String) -> bool;

    fn fetch_module_size_in_bytes(&self, address: &Vec<u8>, module_name: &String) -> Option<usize>;
}

} // verus!
