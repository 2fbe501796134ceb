use inboxid::flags::{
    apply_seen_change, has_flag_char, imap_flag_to_maildir, imap_flags_to_cmd,
    imap_flags_to_maildir, maildir_flags_to_imap, normalize_flags, reconcile_flags, seen_change,
    Flag, SeenChange, DELETE, FLAGGED, REPLIED, SEEN, TRASHED, UNREAD,
};

#[test]
fn flag_letters_are_the_documented_ones() {
    assert_eq!(
        (SEEN, REPLIED, FLAGGED, TRASHED, UNREAD, DELETE),
        ('S', 'R', 'F', 'T', 'U', 'E')
    );
}

#[test]
fn server_flags_map_to_letters() {
    assert_eq!(imap_flag_to_maildir(&Flag::Seen), Some('S'));
    assert_eq!(imap_flag_to_maildir(&Flag::Answered), Some('R'));
    assert_eq!(imap_flag_to_maildir(&Flag::Flagged), Some('F'));
    assert_eq!(imap_flag_to_maildir(&Flag::Deleted), Some('T'));
    assert_eq!(imap_flag_to_maildir(&Flag::Draft), None);
    assert_eq!(imap_flag_to_maildir(&Flag::Recent), None);
    assert_eq!(imap_flag_to_maildir(&Flag::MayCreate), None);
    assert_eq!(imap_flag_to_maildir(&Flag::Custom("$Junk".to_string())), None);
}

#[test]
fn letters_map_to_server_flags_in_their_order() {
    assert_eq!(
        maildir_flags_to_imap("SxRFTUE"),
        vec![Flag::Seen, Flag::Answered, Flag::Flagged, Flag::Deleted]
    );
    assert_eq!(maildir_flags_to_imap("TT"), vec![Flag::Deleted, Flag::Deleted]);
    assert!(maildir_flags_to_imap("UE").is_empty());
}

#[test]
fn server_flags_are_mirrored_into_the_flag_string() {
    assert_eq!(imap_flags_to_maildir("".to_string(), &[Flag::Seen]), "S");
    assert_eq!(imap_flags_to_maildir("SRF".to_string(), &[]), "");
    assert_eq!(imap_flags_to_maildir("TS".to_string(), &[Flag::Seen, Flag::Flagged]), "TSSF");
    assert_eq!(imap_flags_to_maildir("URx".to_string(), &[Flag::Answered]), "URxR");
    assert_eq!(
        imap_flags_to_maildir("E".to_string(), &[Flag::Flagged, Flag::Answered, Flag::Seen]),
        "ESRF"
    );
}

#[test]
fn flag_lists_are_rendered_for_imap() {
    assert_eq!(imap_flags_to_cmd(&[]), "()");
    assert_eq!(imap_flags_to_cmd(&[Flag::Seen]), "(\\Seen)");
    assert_eq!(
        imap_flags_to_cmd(&[
            Flag::Seen,
            Flag::Answered,
            Flag::Flagged,
            Flag::Deleted,
            Flag::Draft,
            Flag::Recent,
            Flag::MayCreate,
            Flag::Custom("$Junk".to_string()),
        ]),
        "(\\Seen \\Answered \\Flagged \\Deleted \\Draft \\Recent \\* $Junk)"
    );
}

#[test]
fn normal_form_is_sorted_and_without_repeats() {
    assert_eq!(normalize_flags("TSSF"), "FST");
    assert_eq!(normalize_flags(""), "");
    assert_eq!(normalize_flags("a"), "a");
    assert_eq!(normalize_flags("zyxzyx"), "xyz");
    assert_eq!(normalize_flags(&normalize_flags("RSRS")), normalize_flags("RSRS"));
}

#[test]
fn flags_are_a_set() {
    assert_eq!(normalize_flags("ST"), normalize_flags("TS"));
    assert_eq!(normalize_flags("SST"), normalize_flags("TS"));
}

#[test]
fn seen_is_settled_by_the_local_flags() {
    assert_eq!(seen_change("S", &[]), SeenChange::Add);
    assert_eq!(seen_change("S", &[Flag::Seen]), SeenChange::Keep);
    assert_eq!(seen_change("U", &[Flag::Seen]), SeenChange::Remove);
    assert_eq!(seen_change("U", &[]), SeenChange::Keep);
    assert_eq!(seen_change("", &[Flag::Seen]), SeenChange::Keep);
    assert_eq!(seen_change("SU", &[]), SeenChange::Add);
    assert_eq!(seen_change("SU", &[Flag::Seen]), SeenChange::Remove);
}

#[test]
fn seen_changes_are_carried_out_in_memory() {
    let mut f = vec![Flag::Flagged];
    apply_seen_change(&mut f, SeenChange::Add);
    assert_eq!(f, vec![Flag::Flagged, Flag::Seen]);
    apply_seen_change(&mut f, SeenChange::Keep);
    assert_eq!(f, vec![Flag::Flagged, Flag::Seen]);
    let mut g = vec![Flag::Seen, Flag::Flagged, Flag::Seen];
    apply_seen_change(&mut g, SeenChange::Remove);
    assert_eq!(g, vec![Flag::Flagged, Flag::Seen]);
    let mut h = vec![Flag::Flagged];
    apply_seen_change(&mut h, SeenChange::Remove);
    assert_eq!(h, vec![Flag::Flagged]);
}

#[test]
fn reconciled_flags_follow_the_server() {
    assert_eq!(reconcile_flags("U", &[Flag::Seen]), "S");
    assert_eq!(reconcile_flags("SRF", &[]), "");
    assert_eq!(reconcile_flags("TUS", &[Flag::Flagged]), "FT");
    assert_eq!(reconcile_flags("E", &[Flag::Seen, Flag::Answered]), "ERS");
}

#[test]
fn server_flags_are_looked_up_by_letter() {
    assert!(has_flag_char(&[Flag::Draft, Flag::Deleted], 'T'));
    assert!(!has_flag_char(&[Flag::Draft, Flag::Custom("T".to_string())], 'T'));
    assert!(!has_flag_char(&[], 'S'));
}
