use rustnetworking::rsa::{confidentiality as conf, keygen};

#[test]
fn rsa_conf_test_test_keygen_doesnt_give_err() -> Result<(), String> {
    keygen(2048).map_err(|e| e.message())?;
    Ok(())
}

#[test]
fn rsa_conf_test_test_decrypted_cipher_gives_original_plaintext() -> Result<(), String> {
    let plaintext = format!("this is a test");
    let plaintext_bytes = plaintext.clone().into_bytes();

    let (pk, sk) = keygen(2048).map_err(|e| e.message())?;
    let cipher = conf::encrypt(plaintext_bytes, &pk);

    let res_bytes = conf::decrypt(cipher, sk).map_err(|e| e.message())?;
    let res = String::from_utf8(res_bytes).map_err(|x| x.to_string())?;

    assert_eq!(plaintext, res);
    Ok(())
}
