use brocade_agent::certfile::{
    atomic_write_private, certificate_bundle, no_parent, slot_temporary_name, track_dir, write_certificate, CertificateMaterial,
    CertificateSlot, CertificateTrack,
};
use brocade_agent::paths::{ReplaceStep, Replacing};

fn slot(id: &str, cert: &str, key: &str) -> CertificateSlot {
    CertificateSlot {
        certificate_id: id.to_owned(),
        cert_pem: cert.to_owned(),
        key_pem: key.to_owned(),
    }
}

fn material(cert: &str, key: &str) -> CertificateMaterial {
    CertificateMaterial {
        track: CertificateTrack::SelfSigned,
        slot_a: slot("a", cert, key),
        slot_b: slot("b", cert, key),
    }
}

#[test]
fn a_slot_holds_the_certificate_and_then_its_key() {
    assert_eq!(certificate_bundle(&slot("a", "CERT", "KEY")), b"CERT\nKEY\n");
    let plan = write_certificate("/state", &material("CERT", "KEY"), None, None);
    assert_eq!(plan.slot_a, Some(b"CERT\nKEY\n".to_vec()));
    assert_eq!(plan.slot_b, Some(b"CERT\nKEY\n".to_vec()));
    assert!(plan.notice.is_some());
}

#[test]
fn writing_the_same_material_twice_does_not_touch_the_files() {
    let first = write_certificate("/state", &material("CERT", "KEY"), None, None);
    let a = first.slot_a.unwrap();
    let b = first.slot_b.unwrap();
    let second = write_certificate("/state", &material("CERT", "KEY"), Some(&a), Some(&b));
    assert_eq!(second.slot_a, None);
    assert_eq!(second.slot_b, None);
    assert_eq!(second.notice, None);
}

#[test]
fn a_changed_certificate_replaces_both_files() {
    let old = write_certificate("/state", &material("OLD", "OLDKEY"), None, None);
    let a = old.slot_a.unwrap();
    let b = old.slot_b.unwrap();
    let new = write_certificate("/state", &material("NEW", "NEWKEY"), Some(&a), Some(&b));
    assert_eq!(new.slot_a, Some(b"NEW\nNEWKEY\n".to_vec()));
    assert_eq!(new.slot_b, Some(b"NEW\nNEWKEY\n".to_vec()));
}

#[test]
fn public_and_self_signed_tracks_never_share_a_directory() {
    let mut public = material("PUBLIC", "PUBLIC-KEY");
    public.track = CertificateTrack::PublicCa;
    let public = write_certificate("/state", &public, None, None);
    let own = write_certificate("/state", &material("SELF", "SELF-KEY"), None, None);
    assert_ne!(public.dir, own.dir);
    assert_eq!(public.slot_a, Some(b"PUBLIC\nPUBLIC-KEY\n".to_vec()));
    assert_eq!(own.slot_a, Some(b"SELF\nSELF-KEY\n".to_vec()));
    assert_ne!(
        track_dir("/state", CertificateTrack::PublicCa),
        track_dir("/state", CertificateTrack::SelfSigned)
    );
}

#[test]
fn two_writers_never_use_one_temporary_file() {
    let a = slot_temporary_name(Some("slot-a.pem"), 7, 0);
    let b = slot_temporary_name(Some("slot-a.pem"), 7, 1);
    let c = slot_temporary_name(Some("slot-a.pem"), 8, 0);
    assert_ne!(a, b);
    assert_ne!(a, c);
}

#[test]
fn a_slot_takes_its_name_once_it_is_complete_on_disk() {
    let next = |stage, outcome| {
        atomic_write_private(stage, outcome, "/d/.slot-a.pem.tmp-7-0", "/d/slot-a.pem", "/d")
    };
    assert_eq!(next(Replacing::Opened, Ok(())), ReplaceStep::Write);
    assert_eq!(next(Replacing::Written, Ok(())), ReplaceStep::SyncFile);
    assert_eq!(next(Replacing::Synced, Ok(())), ReplaceStep::Rename);
    assert_eq!(next(Replacing::Renamed, Ok(())), ReplaceStep::SyncDirectory);
    assert_eq!(next(Replacing::Complete, Ok(())), ReplaceStep::Done);
    for (stage, said) in [
        (Replacing::Opened, "创建证书临时文件 /d/.slot-a.pem.tmp-7-0 失败：x"),
        (Replacing::Written, "写入证书临时文件 /d/.slot-a.pem.tmp-7-0 失败：x"),
        (Replacing::Synced, "写入证书临时文件 /d/.slot-a.pem.tmp-7-0 失败：x"),
        (Replacing::Renamed, "替换证书槽 /d/slot-a.pem 失败：x"),
        (Replacing::Complete, "同步证书目录 /d 失败：x"),
    ] {
        assert_eq!(next(stage, Err("x")), ReplaceStep::GiveUp(said.to_owned()));
    }
    assert_eq!(no_parent("/"), "证书槽没有父目录：/");
}
