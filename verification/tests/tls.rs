use raptor::config::TlsConfig;
use raptor::tls::load_credentials;

fn tls() -> TlsConfig {
    TlsConfig { cert_path: "c.pem".to_string(), key_path: "k.pem".to_string() }
}

fn pem(label: &str, body: &str) -> String {
    format!("-----BEGIN {label}-----\n{body}\n-----END {label}-----\n")
}

fn failure(cert: Option<&[u8]>, key: Option<&[u8]>) -> String {
    load_credentials(&tls(), cert, key).unwrap_err().message()
}

#[test]
fn credentials_come_from_the_files() {
    let certs = pem("CERTIFICATE", "AQID") + &pem("CERTIFICATE", "BAU=");
    let keys = pem("PRIVATE KEY", "CQ==") + &pem("PRIVATE KEY", "Cg==");
    let c = load_credentials(&tls(), Some(certs.as_bytes()), Some(keys.as_bytes())).unwrap();
    assert_eq!(c.certs, vec![vec![1u8, 2, 3], vec![4, 5]]);
    assert_eq!(c.key, vec![9u8]);
    assert_eq!(c.protocols, vec![b"h2".to_vec(), b"http/1.1".to_vec()]);
}

#[test]
fn rsa_keys_are_a_second_choice() {
    let certs = pem("CERTIFICATE", "AQID");
    let rsa = pem("RSA PRIVATE KEY", "Bw==");
    let c = load_credentials(&tls(), Some(certs.as_bytes()), Some(rsa.as_bytes())).unwrap();
    assert_eq!(c.key, vec![7u8]);
    let both = rsa + &pem("PRIVATE KEY", "CQ==");
    let c = load_credentials(&tls(), Some(certs.as_bytes()), Some(both.as_bytes())).unwrap();
    assert_eq!(c.key, vec![9u8]);
}

#[test]
fn every_fault_is_told() {
    let certs = pem("CERTIFICATE", "AQID");
    let cert = Some(certs.as_bytes());
    assert_eq!(failure(None, None), "no se pudo leer el certificado en 'c.pem'");
    let broken = "-----BEGIN CERTIFICATE-----\nAQID\n";
    assert_eq!(
        failure(Some(broken.as_bytes()), None),
        "no se pudo leer el certificado en 'c.pem'"
    );
    assert_eq!(
        failure(Some(b""), None),
        "el archivo de certificado 'c.pem' no tiene ningún certificado PEM adentro"
    );
    assert_eq!(failure(cert, None), "no se pudo leer la private key en 'k.pem'");
    assert_eq!(
        failure(cert, cert),
        "el archivo de key 'k.pem' no tiene ninguna private key PEM reconocible (probá PKCS#8 o RSA)"
    );
    assert_eq!(
        raptor::tls::TlsSetupError::Rustls("x".to_string()).message(),
        "rustls rechazó la configuración: x"
    );
}
