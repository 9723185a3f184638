use vstd::prelude::*;

verus! {

/// A public-key pair used to encrypt and decrypt object content, for key
/// providers to implement.
pub trait Key {
    type PublicKey;

    type PrivateKey;

    /// Generates a key pair with the default user id.
    fn generate_key();

    /// Generates a key pair for `primary_id`, stored under `key_name`.
    fn generate_key_full(primary_id: &str, key_name: &str);

    /// Encrypts with the public key stored at `public_key_file_path`.
    fn encrypt(public_key_file_path: &str);

    /// Decrypts with the private key stored at `private_key_file_path`.
    fn decrypt(private_key_file_path: &str);

    /// Lists the keys stored under `key_path`.
    fn list_keys(key_path: &str);

    /// Deletes the key `key_name` stored under `key_path`.
    fn delete_key(key_name: &str, key_path: &str);
}

} // verus!
