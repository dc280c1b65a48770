use devteams::teams::{
    collect_teams, find_development_teams, get_x509_field, insert_team, DnField, FindTeamsError, Subject, Team,
};
use openssl::asn1::Asn1Time;
use openssl::ec::{EcGroup, EcKey};
use openssl::error::ErrorStack;
use openssl::hash::MessageDigest;
use openssl::nid::Nid;
use openssl::pkey::PKey;
use openssl::x509::{X509Builder, X509NameBuilder};

fn cert_pem(org: Option<&str>, unit: Option<&str>) -> Vec<u8> {
    let group = EcGroup::from_curve_name(Nid::X9_62_PRIME256V1).unwrap();
    let key = PKey::from_ec_key(EcKey::generate(&group).unwrap()).unwrap();
    let mut name = X509NameBuilder::new().unwrap();
    name.append_entry_by_nid(Nid::COMMONNAME, "Developer: Test").unwrap();
    if let Some(o) = org {
        name.append_entry_by_nid(Nid::ORGANIZATIONNAME, o).unwrap();
    }
    if let Some(u) = unit {
        name.append_entry_by_nid(Nid::ORGANIZATIONALUNITNAME, u).unwrap();
    }
    let name = name.build();
    let mut builder = X509Builder::new().unwrap();
    builder.set_version(2).unwrap();
    builder.set_subject_name(&name).unwrap();
    builder.set_issuer_name(&name).unwrap();
    builder.set_pubkey(&key).unwrap();
    builder.set_not_before(&Asn1Time::days_from_now(0).unwrap()).unwrap();
    builder.set_not_after(&Asn1Time::days_from_now(365).unwrap()).unwrap();
    builder.sign(&key, MessageDigest::sha256()).unwrap();
    builder.build().to_pem().unwrap()
}

fn team(name: &str, id: &str) -> Team {
    Team { name: name.to_string(), id: id.to_string() }
}

fn is_ascending(teams: &[Team]) -> bool {
    teams.windows(2).all(|w| {
        (w[0].name.as_bytes(), w[0].id.as_bytes()) < (w[1].name.as_bytes(), w[1].id.as_bytes())
    })
}

#[test]
fn empty_buffer_gives_no_teams() {
    let teams = find_development_teams(b"").unwrap();
    assert!(teams.is_empty());
}

#[test]
fn one_certificate_gives_its_team() {
    let pem = cert_pem(Some("Acme Inc."), Some("TEAM123ABC"));
    let teams = find_development_teams(&pem).unwrap();
    assert_eq!(teams, vec![team("Acme Inc.", "TEAM123ABC")]);
}

#[test]
fn identical_certificates_give_one_team() {
    let mut pem = cert_pem(Some("Acme Inc."), Some("TEAM123ABC"));
    let copy = pem.clone();
    pem.extend_from_slice(&copy);
    let teams = find_development_teams(&pem).unwrap();
    assert_eq!(teams.len(), 1);
    assert_eq!(teams[0], team("Acme Inc.", "TEAM123ABC"));
}

#[test]
fn same_organization_ordered_by_id() {
    let mut pem = cert_pem(Some("Acme Inc."), Some("ZZZ999"));
    pem.extend_from_slice(&cert_pem(Some("Acme Inc."), Some("AAA111")));
    let teams = find_development_teams(&pem).unwrap();
    assert_eq!(teams, vec![team("Acme Inc.", "AAA111"), team("Acme Inc.", "ZZZ999")]);
}

#[test]
fn missing_organization_is_missing_field() {
    let mut pem = cert_pem(Some("Acme Inc."), Some("TEAM123ABC"));
    pem.extend_from_slice(&cert_pem(None, Some("TEAM456DEF")));
    let r = find_development_teams(&pem);
    assert!(matches!(r, Err(FindTeamsError::MissingX509Field(DnField::Organization))));
}

#[test]
fn missing_unit_is_missing_field() {
    let pem = cert_pem(Some("Acme Inc."), None);
    let r = find_development_teams(&pem);
    assert!(matches!(r, Err(FindTeamsError::MissingX509Field(DnField::OrganizationalUnit))));
}

#[test]
fn missing_both_reports_organization_first() {
    let pem = cert_pem(None, None);
    let r = find_development_teams(&pem);
    assert!(matches!(r, Err(FindTeamsError::MissingX509Field(DnField::Organization))));
}

#[test]
fn malformed_block_is_parse_error() {
    let mut pem = cert_pem(Some("Acme Inc."), Some("TEAM123ABC"));
    pem.extend_from_slice(b"-----BEGIN CERTIFICATE-----\nnot a certificate!\n-----END CERTIFICATE-----\n");
    let r = find_development_teams(&pem);
    assert!(matches!(r, Err(FindTeamsError::ParseX509Error(_))));
}

#[test]
fn output_is_ascending_and_distinct() {
    let mut pem = Vec::new();
    for (o, u) in [("Zeta", "B"), ("Alpha", "Q"), ("Zeta", "A"), ("Alpha", "Q"), ("Mid", "X")] {
        pem.extend_from_slice(&cert_pem(Some(o), Some(u)));
    }
    let teams = find_development_teams(&pem).unwrap();
    assert_eq!(
        teams,
        vec![team("Alpha", "Q"), team("Mid", "X"), team("Zeta", "A"), team("Zeta", "B")]
    );
    assert!(is_ascending(&teams));
}

#[test]
fn running_twice_gives_the_same_teams() {
    let mut pem = cert_pem(Some("Beta"), Some("T2"));
    pem.extend_from_slice(&cert_pem(Some("Alpha"), Some("T1")));
    let first = find_development_teams(&pem).unwrap();
    let second = find_development_teams(&pem).unwrap();
    assert_eq!(first, second);
    assert_eq!(first, vec![team("Alpha", "T1"), team("Beta", "T2")]);
}

#[test]
fn collect_sorts_and_deduplicates() {
    let input = vec![team("b", "1"), team("a", "2"), team("b", "1"), team("a", "1")];
    let out = collect_teams(input);
    assert_eq!(out, vec![team("a", "1"), team("a", "2"), team("b", "1")]);
}

#[test]
fn collect_orders_by_bytes() {
    let input = vec![team("a", "x"), team("B", "x"), team("ab", "x"), team("", "x"), team("é", "x")];
    let out = collect_teams(input);
    assert_eq!(
        out,
        vec![team("", "x"), team("B", "x"), team("a", "x"), team("ab", "x"), team("é", "x")]
    );
}

#[test]
fn collect_of_nothing_is_empty() {
    assert!(collect_teams(Vec::new()).is_empty());
}

#[test]
fn collect_ignores_input_order() {
    let a = collect_teams(vec![team("x", "2"), team("x", "1"), team("w", "9")]);
    let b = collect_teams(vec![team("w", "9"), team("x", "1"), team("x", "2"), team("x", "1")]);
    assert_eq!(a, b);
}

#[test]
fn insert_keeps_order_and_skips_present_team() {
    let mut teams = vec![team("a", "1"), team("c", "1")];
    insert_team(&mut teams, team("b", "1"));
    insert_team(&mut teams, team("a", "1"));
    assert_eq!(teams, vec![team("a", "1"), team("b", "1"), team("c", "1")]);
}

#[test]
fn field_value_of_each_entry() {
    assert!(matches!(
        get_x509_field(DnField::OrganizationalUnit, None),
        Err(FindTeamsError::MissingX509Field(DnField::OrganizationalUnit))
    ));
    assert!(matches!(
        get_x509_field(DnField::Organization, Some(Err(ErrorStack::get()))),
        Err(FindTeamsError::AsUtf8Error(_))
    ));
    assert_eq!(get_x509_field(DnField::Organization, Some(Ok("Acme".to_string()))).unwrap(), "Acme");
}

#[test]
fn team_from_entries_checks_organization_first() {
    let r = Team::from_entries(Some(Err(ErrorStack::get())), None);
    assert!(matches!(r, Err(FindTeamsError::AsUtf8Error(_))));
    let r = Team::from_entries(Some(Ok("Acme".to_string())), Some(Err(ErrorStack::get())));
    assert!(matches!(r, Err(FindTeamsError::AsUtf8Error(_))));
    let r = Team::from_entries(Some(Ok("Acme".to_string())), Some(Ok("T1".to_string())));
    assert_eq!(r.unwrap(), team("Acme", "T1"));
}

#[test]
fn team_from_subject_reads_organization_and_unit() {
    let subject = Subject {
        organization: Some(Ok("Acme Inc.".to_string())),
        unit: Some(Ok("TEAM123ABC".to_string())),
    };
    assert_eq!(Team::from_x509(subject).unwrap(), team("Acme Inc.", "TEAM123ABC"));
}

#[test]
fn team_from_subject_reports_each_failure() {
    let r = Team::from_x509(Subject { organization: None, unit: None });
    assert!(matches!(r, Err(FindTeamsError::MissingX509Field(DnField::Organization))));
    let r = Team::from_x509(Subject { organization: Some(Err(ErrorStack::get())), unit: None });
    assert!(matches!(r, Err(FindTeamsError::AsUtf8Error(_))));
    let r = Team::from_x509(Subject { organization: Some(Ok("Acme".to_string())), unit: None });
    assert!(matches!(r, Err(FindTeamsError::MissingX509Field(DnField::OrganizationalUnit))));
    let r = Team::from_x509(Subject {
        organization: Some(Ok("Acme".to_string())),
        unit: Some(Err(ErrorStack::get())),
    });
    assert!(matches!(r, Err(FindTeamsError::AsUtf8Error(_))));
}

#[test]
fn first_failing_certificate_decides_the_error() {
    let mut pem = cert_pem(Some("Acme Inc."), None);
    pem.extend_from_slice(&cert_pem(None, Some("T1")));
    let r = find_development_teams(&pem);
    assert!(matches!(r, Err(FindTeamsError::MissingX509Field(DnField::OrganizationalUnit))));
}
