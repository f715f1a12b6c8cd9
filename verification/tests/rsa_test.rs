use rustnetworking::rsa;

#[test]
fn rsa_test_test_keygen_doesnt_give_err() -> Result<(), String> {
    rsa::keygen(2048).map_err(|e| e.message())?;
    Ok(())
}

#[test]
fn rsa_test_test_decrypted_cipher_gives_original_plaintext() -> Result<(), String> {
    let plaintext = format!("this is a test");
    let plaintext_bytes = plaintext.clone().into_bytes();

    let (pk, sk) = rsa::keygen(2048).map_err(|e| e.message())?;
    let cipher = rsa::confidentiality::encrypt(plaintext_bytes, &pk);

    let res_bytes = rsa::confidentiality::decrypt(cipher, sk).map_err(|e| e.message())?;
    let res = String::from_utf8(res_bytes).map_err(|x| x.to_string())?;

    assert_eq!(plaintext, res);
    Ok(())
}
