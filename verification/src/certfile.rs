//! The node's certificates on disk.
use vstd::prelude::*;
use vstd::string::*;

use crate::paths::{ReplaceStep, Replacing};
use crate::{bytes, numbers, paths, text};

verus! {

/// Which kind of certificate.
#[derive(Debug, Clone, Copy, PartialEq, Eq, Structural)]
pub enum CertificateTrack {
    PublicCa,
    SelfSigned,
}

/// One certificate with its key.
#[derive(Debug, PartialEq, Eq)]
pub struct CertificateSlot {
    pub certificate_id: String,
    pub cert_pem: String,
    pub key_pem: String,
}

/// The two certificates of a kind.
#[derive(Debug, PartialEq, Eq)]
pub struct CertificateMaterial {
    pub track: CertificateTrack,
    pub slot_a: CertificateSlot,
    pub slot_b: CertificateSlot,
}

/// What a kind of certificate is called.
pub open spec fn name_of(track: CertificateTrack) -> Seq<char> {
    match track {
        CertificateTrack::PublicCa => "公有证书"@,
        CertificateTrack::SelfSigned => "自签证书"@,
    }
}

/// What a kind of certificate is called.
pub fn track_name(track: CertificateTrack) -> (r: &'static str)
    ensures
        r@ == name_of(track),
{
    match track {
        CertificateTrack::PublicCa => "公有证书",
        CertificateTrack::SelfSigned => "自签证书",
    }
}

/// The directory of a kind of certificate.
pub open spec fn dir_of(state_dir: Seq<char>, track: CertificateTrack) -> Seq<char> {
    paths::joined(
        paths::joined(state_dir, "tls"@),
        match track {
            CertificateTrack::PublicCa => "public-ca"@,
            CertificateTrack::SelfSigned => "self-signed"@,
        },
    )
}

/// The directory of a kind of certificate.
pub fn track_dir(state_dir: &str, track: CertificateTrack) -> (r: String)
    ensures
        r@ == dir_of(state_dir@, track),
{
    let tls = paths::join(state_dir, "tls");
    paths::join(
        tls.as_str(),
        match track {
            CertificateTrack::PublicCa => "public-ca",
            CertificateTrack::SelfSigned => "self-signed",
        },
    )
}

/// The kinds never share a directory.
pub proof fn lemma_tracks_never_share_a_directory(state_dir: Seq<char>)
    ensures
        dir_of(state_dir, CertificateTrack::PublicCa) != dir_of(
            state_dir,
            CertificateTrack::SelfSigned,
        ),
{
    reveal_strlit("public-ca");
    reveal_strlit("self-signed");
    assert("public-ca"@.len() != "self-signed"@.len());
    paths::lemma_joined_names_differ(
        paths::joined(state_dir, "tls"@),
        "public-ca"@,
        "self-signed"@,
    );
}

/// A certificate and its key in one file, each ended by one line break: whoever reads
/// it never sees a new half beside an old one.
pub open spec fn bundle(cert_pem: Seq<char>, key_pem: Seq<char>) -> Seq<u8> {
    vstd::utf8::encode_utf8(text::trim_end(cert_pem)) + seq![10u8] + vstd::utf8::encode_utf8(
        text::trim_end(key_pem),
    ) + seq![10u8]
}

/// A certificate and its key in one file.
pub fn certificate_bundle(slot: &CertificateSlot) -> (r: Vec<u8>)
    ensures
        r@ == bundle(slot.cert_pem@, slot.key_pem@),
{
    let cert = text::chars_of(slot.cert_pem.as_str());
    let key = text::chars_of(slot.key_pem.as_str());
    let c = text::string_of(text::trimmed_end(cert.as_slice()));
    let k = text::string_of(text::trimmed_end(key.as_slice()));
    let mut out: Vec<u8> = Vec::new();
    bytes::append(&mut out, c.as_str().as_bytes());
    out.push(10);
    bytes::append(&mut out, k.as_str().as_bytes());
    out.push(10);
    assert(out@ == bundle(slot.cert_pem@, slot.key_pem@));
    out
}

/// What is to be written of a pair, and what is said of it then.
#[derive(Debug, PartialEq, Eq)]
pub struct CertificatePlan {
    pub dir: String,
    pub slot_a: Option<Vec<u8>>,
    pub slot_b: Option<Vec<u8>>,
    pub notice: Option<String>,
}

/// Whether a file holds these bytes.
pub open spec fn holds(on_disk: Option<&[u8]>, wanted: Seq<u8>) -> bool {
    on_disk matches Some(now) && now@ == wanted
}

fn differing(on_disk: Option<&[u8]>, wanted: Vec<u8>) -> (r: Option<Vec<u8>>)
    ensures
        match r {
            Some(data) => data == wanted && !holds(on_disk, wanted@),
            None => holds(on_disk, wanted@),
        },
{
    match on_disk {
        Some(now) => {
            if bytes::same_bytes(now, wanted.as_slice()) {
                return None;
            }
        },
        None => {},
    }
    Some(wanted)
}

/// What is to be written of a pair: the files that hold something else now. A file
/// that matches is left alone, since writing it would change nothing and could only
/// go wrong. The notice names the certificates and never shows them.
pub fn write_certificate(
    state_dir: &str,
    material: &CertificateMaterial,
    disk_a: Option<&[u8]>,
    disk_b: Option<&[u8]>,
) -> (r: CertificatePlan)
    ensures
        r.dir@ == dir_of(state_dir@, material.track),
        match r.slot_a {
            Some(data) => data@ == bundle(material.slot_a.cert_pem@, material.slot_a.key_pem@)
                && !holds(disk_a, data@),
            None => holds(
                disk_a,
                bundle(material.slot_a.cert_pem@, material.slot_a.key_pem@),
            ),
        },
        match r.slot_b {
            Some(data) => data@ == bundle(material.slot_b.cert_pem@, material.slot_b.key_pem@)
                && !holds(disk_b, data@),
            None => holds(
                disk_b,
                bundle(material.slot_b.cert_pem@, material.slot_b.key_pem@),
            ),
        },
        match r.notice {
            Some(n) => (r.slot_a is Some || r.slot_b is Some) && n@ == "证书槽已更新（"@ + name_of(
                material.track,
            ) + "）："@ + material.slot_a.certificate_id@ + " / "@
                + material.slot_b.certificate_id@,
            None => r.slot_a is None && r.slot_b is None,
        },
{
    let slot_a = differing(disk_a, certificate_bundle(&material.slot_a));
    let slot_b = differing(disk_b, certificate_bundle(&material.slot_b));
    let notice = if slot_a.is_some() || slot_b.is_some() {
        let mut out = "证书槽已更新（".to_owned();
        out.append(track_name(material.track));
        out.append("）：");
        out.append(material.slot_a.certificate_id.as_str());
        out.append(" / ");
        out.append(material.slot_b.certificate_id.as_str());
        Some(out)
    } else {
        None
    };
    CertificatePlan { dir: track_dir(state_dir, material.track), slot_a, slot_b, notice }
}

/// The name of a temporary file beside a slot.
pub fn slot_temporary_name(name: Option<&str>, pid: u32, sequence: u64) -> (r: String)
    ensures
        r@ == "."@ + (match name {
            Some(n) => n@,
            None => "slot"@,
        }) + ".tmp-"@ + numbers::decimal(pid as int) + "-"@ + numbers::decimal(sequence as int),
{
    let mut out = ".".to_owned();
    match name {
        Some(n) => {
            out.append(n);
        },
        None => {
            out.append("slot");
        },
    }
    out.append(".tmp-");
    out.append(numbers::decimal_string(pid as u64).as_str());
    out.append("-");
    out.append(numbers::decimal_string(sequence).as_str());
    out
}

/// What is said of a slot whose path lies in no directory.
pub fn no_parent(path: &str) -> (r: String)
    ensures
        r@ == "证书槽没有父目录："@ + path@,
{
    let mut out = "证书槽没有父目录：".to_owned();
    out.append(path);
    out
}

/// What is said of a replacement of a slot that failed on the way to `stage`.
pub open spec fn replacement_failure(
    stage: Replacing,
    error: Seq<char>,
    temporary: Seq<char>,
    path: Seq<char>,
    parent: Seq<char>,
) -> Seq<char> {
    match stage {
        Replacing::Opened => "创建证书临时文件 "@ + temporary + " 失败："@ + error,
        Replacing::Written | Replacing::Synced => "写入证书临时文件 "@ + temporary + " 失败："@ + error,
        Replacing::Renamed => "替换证书槽 "@ + path + " 失败："@ + error,
        Replacing::Complete => "同步证书目录 "@ + parent + " 失败："@ + error,
    }
}

/// The next step towards replacing a slot, after the one before ended as `outcome` says.
/// The new contents are complete on disk before they take the slot's name, and what is
/// left of a failed replacement is removed.
pub fn atomic_write_private(
    stage: Replacing,
    outcome: Result<(), &str>,
    temporary: &str,
    path: &str,
    parent: &str,
) -> (r: ReplaceStep)
    ensures
        match outcome {
            Ok(()) => match stage {
                Replacing::Opened => r is Write,
                Replacing::Written => r is SyncFile,
                Replacing::Synced => r is Rename,
                Replacing::Renamed => r is SyncDirectory,
                Replacing::Complete => r is Done,
            },
            Err(error) => r matches ReplaceStep::GiveUp(e) && e@ == replacement_failure(
                stage,
                error@,
                temporary@,
                path@,
                parent@,
            ),
        },
        outcome is Ok ==> r == paths::next_replace_step(stage),
{
    let error = match outcome {
        Ok(()) => {
            return match stage {
                Replacing::Opened => ReplaceStep::Write,
                Replacing::Written => ReplaceStep::SyncFile,
                Replacing::Synced => ReplaceStep::Rename,
                Replacing::Renamed => ReplaceStep::SyncDirectory,
                Replacing::Complete => ReplaceStep::Done,
            };
        },
        Err(error) => error,
    };
    let mut out = match stage {
        Replacing::Opened => "创建证书临时文件 ".to_owned(),
        Replacing::Written | Replacing::Synced => "写入证书临时文件 ".to_owned(),
        Replacing::Renamed => "替换证书槽 ".to_owned(),
        Replacing::Complete => "同步证书目录 ".to_owned(),
    };
    out.append(
        match stage {
            Replacing::Renamed => path,
            Replacing::Complete => parent,
            _ => temporary,
        },
    );
    out.append(" 失败：");
    out.append(error);
    ReplaceStep::GiveUp(out)
}

/// A certificate stands before its key in their file, each as it was given but for blanks at
/// its end, and each on lines of its own.
pub proof fn lemma_certificate_stands_before_its_key(cert_pem: Seq<char>, key_pem: Seq<char>)
    requires
        text::trim_end(cert_pem) == cert_pem,
        text::trim_end(key_pem) == key_pem,
    ensures
        ({
            let cert = vstd::utf8::encode_utf8(cert_pem);
            let key = vstd::utf8::encode_utf8(key_pem);
            let file = bundle(cert_pem, key_pem);
            &&& file.len() == cert.len() + key.len() + 2
            &&& file.take(cert.len() as int) == cert
            &&& file[cert.len() as int] == 10
            &&& file.subrange(cert.len() as int + 1, (cert.len() + 1 + key.len()) as int) == key
            &&& file.last() == 10
        }),
{
    let cert = vstd::utf8::encode_utf8(cert_pem);
    let key = vstd::utf8::encode_utf8(key_pem);
    let file = bundle(cert_pem, key_pem);
    assert(file.take(cert.len() as int) =~= cert);
    assert(file.subrange(cert.len() as int + 1, (cert.len() + 1 + key.len()) as int) =~= key);
}

/// Each kind of certificate has the directory of its name.
pub proof fn lemma_track_has_its_directory(state_dir: Seq<char>)
    ensures
        text::ends_with(dir_of(state_dir, CertificateTrack::PublicCa), "public-ca"@),
        text::ends_with(dir_of(state_dir, CertificateTrack::SelfSigned), "self-signed"@),
{
    let tls = paths::joined(state_dir, "tls"@);
    lemma_joined_ends_with_name(tls, "public-ca"@);
    lemma_joined_ends_with_name(tls, "self-signed"@);
}

proof fn lemma_joined_ends_with_name(dir: Seq<char>, name: Seq<char>)
    ensures
        text::ends_with(paths::joined(dir, name), name),
{
    let path = paths::joined(dir, name);
    let at = path.len() - name.len();
    assert(path.subrange(at, at + name.len()) =~= name);
}

} // verus!
