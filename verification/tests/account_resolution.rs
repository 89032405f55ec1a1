use block_analysis::account_resolution::{
    resolve_account_locks, split_static_keys, MessageHeader,
};

fn keys(strs: &[&str]) -> Vec<String> {
    strs.iter().map(|s| s.to_string()).collect()
}

#[test]
fn mixed_signed_unsigned_readonly_split() {
    let static_keys = keys(&["A0", "A1", "A2", "A3", "A4"]);
    let header = MessageHeader {
        num_required_signatures: 2,
        num_readonly_signed_accounts: 1,
        num_readonly_unsigned_accounts: 1,
    };
    let (w, r) = split_static_keys(&static_keys, header);
    assert_eq!(w, keys(&["A0", "A2", "A3"]));
    assert_eq!(r, keys(&["A1", "A4"]));
}

#[test]
fn single_signer_no_readonly() {
    let static_keys = keys(&["Payer"]);
    let header = MessageHeader {
        num_required_signatures: 1,
        num_readonly_signed_accounts: 0,
        num_readonly_unsigned_accounts: 0,
    };
    let (w, r) = split_static_keys(&static_keys, header);
    assert_eq!(w, keys(&["Payer"]));
    assert!(r.is_empty());
}

#[test]
fn all_non_signers_readonly() {
    let static_keys = keys(&["Payer", "ProgramA", "Sysvar"]);
    let header = MessageHeader {
        num_required_signatures: 1,
        num_readonly_signed_accounts: 0,
        num_readonly_unsigned_accounts: 2,
    };
    let (w, r) = split_static_keys(&static_keys, header);
    assert_eq!(w, keys(&["Payer"]));
    assert_eq!(r, keys(&["ProgramA", "Sysvar"]));
}

#[test]
fn full_resolution_appends_alt_accounts_writable_then_readonly() {
    let static_keys = keys(&["Payer", "ProgramA"]);
    let header = MessageHeader {
        num_required_signatures: 1,
        num_readonly_signed_accounts: 0,
        num_readonly_unsigned_accounts: 1,
    };
    let loaded_writable = keys(&["ALT_W1", "ALT_W2"]);
    let loaded_readonly = keys(&["ALT_R1"]);
    let locks = resolve_account_locks(&static_keys, header, &loaded_writable, &loaded_readonly);

    // static writable, loaded writable, static readonly, loaded readonly
    let accounts: Vec<&str> = locks.iter().map(|l| l.account.as_str()).collect();
    assert_eq!(accounts, vec!["Payer", "ALT_W1", "ALT_W2", "ProgramA", "ALT_R1"]);
    assert!(locks[0].is_writable); // Payer
    assert!(locks[1].is_writable); // ALT_W1
    assert!(locks[2].is_writable); // ALT_W2
    assert!(!locks[3].is_writable); // ProgramA
    assert!(!locks[4].is_writable); // ALT_R1
}

#[test]
fn no_alt_accounts_still_works() {
    let static_keys = keys(&["Payer"]);
    let header = MessageHeader {
        num_required_signatures: 1,
        num_readonly_signed_accounts: 0,
        num_readonly_unsigned_accounts: 0,
    };
    let locks = resolve_account_locks(&static_keys, header, &[], &[]);
    assert_eq!(locks.len(), 1);
    assert_eq!(locks[0].account, "Payer");
    assert!(locks[0].is_writable);
}

#[test]
fn a_header_beyond_the_keys_takes_what_there_is() {
    let static_keys = keys(&["A", "B"]);
    let header = MessageHeader {
        num_required_signatures: 200,
        num_readonly_signed_accounts: 255,
        num_readonly_unsigned_accounts: 255,
    };
    let (w, r) = split_static_keys(&static_keys, header);
    assert_eq!(w.len() + r.len(), 2);
    assert!(w.is_empty());
    assert_eq!(r, keys(&["A", "B"]));
}
