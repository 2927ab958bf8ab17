//! Paths as text.
use vstd::prelude::*;
use vstd::string::*;

use crate::{numbers, text};

verus! {

/// A name below a directory.
pub open spec fn joined(dir: Seq<char>, name: Seq<char>) -> Seq<char> {
    if dir.len() == 0 {
        name
    } else if dir.last() == '/' {
        dir + name
    } else {
        dir + "/"@ + name
    }
}

/// A relative name below a directory.
pub fn join(dir: &str, name: &str) -> (r: String)
    ensures
        r@ == joined(dir@, name@),
{
    let chars = text::chars_of(dir);
    let n: usize = chars.len();
    if n == 0 {
        return name.to_owned();
    }
    let mut out = dir.to_owned();
    if chars[n - 1] != '/' {
        out.append("/");
    }
    out.append(name);
    out
}

/// Two names below one directory are two paths.
pub proof fn lemma_joined_names_differ(dir: Seq<char>, a: Seq<char>, b: Seq<char>)
    requires
        a != b,
    ensures
        joined(dir, a) != joined(dir, b),
{
    let base = if dir.len() == 0 || dir.last() == '/' {
        dir
    } else {
        dir + "/"@
    };
    assert(joined(dir, a) =~= base + a);
    assert(joined(dir, b) =~= base + b);
    if base + a == base + b {
        assert((base + a).skip(base.len() as int) =~= a);
        assert((base + b).skip(base.len() as int) =~= b);
    }
}

/// How many names are tried for a temporary file before giving up.
pub const TEMPORARY_ATTEMPTS: u32 = 128;

/// The name of a temporary file beside the one it will replace.
pub open spec fn temporary(name: Seq<char>, pid: u32, sequence: u64) -> Seq<char> {
    "."@ + name + ".tmp."@ + numbers::decimal(pid as int) + "."@ + numbers::decimal(sequence as int)
}

/// The name of a temporary file beside the one it will replace.
pub fn temporary_name(name: &str, pid: u32, sequence: u64) -> (r: String)
    ensures
        r@ == temporary(name@, pid, sequence),
{
    let mut out = ".".to_owned();
    out.append(name);
    out.append(".tmp.");
    out.append(numbers::decimal_string(pid as u64).as_str());
    out.append(".");
    out.append(numbers::decimal_string(sequence).as_str());
    out
}

/// How far replacing a file has come.
#[derive(Debug, Clone, Copy, PartialEq, Eq, Structural)]
pub enum Replacing {
    /// The temporary file is open, and nothing is written yet.
    Opened,
    Written,
    Synced,
    Renamed,
    Complete,
}

/// What to do next to replace a file.
#[derive(Debug, PartialEq, Eq)]
pub enum ReplaceStep {
    Write,
    SyncFile,
    Rename,
    SyncDirectory,
    Done,
    /// Remove the temporary file, and report this.
    GiveUp(String),
}

/// The next step towards replacing a file, after the one before ended as `outcome`
/// says. The new contents are complete on disk before they take the name.
pub fn atomic_write_private(
    stage: Replacing,
    outcome: Result<(), &str>,
    temporary: &str,
    path: &str,
    parent: &str,
) -> (r: ReplaceStep)
    ensures
        match outcome {
            Ok(()) => match stage {
                Replacing::Opened => r is Write,
                Replacing::Written => r is SyncFile,
                Replacing::Synced => r is Rename,
                Replacing::Renamed => r is SyncDirectory,
                Replacing::Complete => r is Done,
            },
            Err(error) => r matches ReplaceStep::GiveUp(e) && e@ == (match stage {
                Replacing::Opened => "open "@ + temporary@ + ": "@ + error@,
                Replacing::Written => "write "@ + temporary@ + ": "@ + error@,
                Replacing::Synced => "fsync "@ + temporary@ + ": "@ + error@,
                Replacing::Renamed => "rename "@ + temporary@ + " to "@ + path@ + ": "@ + error@,
                Replacing::Complete => "fsync directory "@ + parent@ + ": "@ + error@,
            }),
        },
        outcome is Ok ==> r == next_replace_step(stage),
{
    match outcome {
        Ok(()) => match stage {
            Replacing::Opened => ReplaceStep::Write,
            Replacing::Written => ReplaceStep::SyncFile,
            Replacing::Synced => ReplaceStep::Rename,
            Replacing::Renamed => ReplaceStep::SyncDirectory,
            Replacing::Complete => ReplaceStep::Done,
        },
        Err(error) => {
            let mut out = match stage {
                Replacing::Opened => "open ".to_owned(),
                Replacing::Written => "write ".to_owned(),
                Replacing::Synced => "fsync ".to_owned(),
                Replacing::Renamed => "rename ".to_owned(),
                Replacing::Complete => "fsync directory ".to_owned(),
            };
            match stage {
                Replacing::Complete => {
                    out.append(parent);
                },
                Replacing::Renamed => {
                    out.append(temporary);
                    out.append(" to ");
                    out.append(path);
                },
                _ => {
                    out.append(temporary);
                },
            }
            out.append(": ");
            out.append(error);
            ReplaceStep::GiveUp(out)
        },
    }
}

/// What an attempt to create a temporary file came to.
#[derive(Debug, PartialEq, Eq)]
pub enum Creation {
    Created,
    /// A file of that name is left over from before.
    Exists,
    Failed(String),
}

/// What to do about an attempt to create a temporary file.
#[derive(Debug, PartialEq, Eq)]
pub enum CreateStep {
    Use,
    TryNext,
    GiveUp(String),
}

/// What to do after attempt number `attempt`, counted from one. A name left over is
/// passed over, so that a crash does not stop all later writes.
pub fn after_attempt(attempt: u32, creation: &Creation, temporary: &str, path: &str) -> (r:
    CreateStep)
    ensures
        match *creation {
            Creation::Created => r is Use,
            Creation::Exists => if attempt < TEMPORARY_ATTEMPTS {
                r is TryNext
            } else {
                r matches CreateStep::GiveUp(e) && e@
                    == "cannot allocate a temporary file beside "@ + path@
            },
            Creation::Failed(error) => r matches CreateStep::GiveUp(e) && e@ == "open "@
                + temporary@ + ": "@ + error@,
        },
{
    match creation {
        Creation::Created => CreateStep::Use,
        Creation::Exists => {
            if attempt < TEMPORARY_ATTEMPTS {
                CreateStep::TryNext
            } else {
                let mut out = "cannot allocate a temporary file beside ".to_owned();
                out.append(path);
                CreateStep::GiveUp(out)
            }
        },
        Creation::Failed(error) => {
            let mut out = "open ".to_owned();
            out.append(temporary);
            out.append(": ");
            out.append(error.as_str());
            CreateStep::GiveUp(out)
        },
    }
}

/// The first `n` pieces of a path that name a step: empty ones and dots do not,
/// but for a dot that the path begins with.
pub open spec fn steps(pieces: Seq<Seq<char>>, n: int) -> Seq<Seq<char>>
    decreases n,
{
    if n <= 0 || n > pieces.len() {
        seq![]
    } else {
        let front = steps(pieces, n - 1);
        let piece = pieces[n - 1];
        if piece.len() == 0 || (piece == "."@ && n > 1) {
            front
        } else {
            front.push(piece)
        }
    }
}

/// The components of a path; the root is one.
pub open spec fn components(path: Seq<char>) -> Seq<Seq<char>> {
    let pieces = text::split_char(path, '/');
    let rest = steps(pieces, pieces.len() as int);
    if path.len() > 0 && path[0] == '/' {
        seq!["/"@] + rest
    } else {
        rest
    }
}

/// Whether `path` lies at or below `base`.
pub open spec fn lies_under(path: Seq<char>, base: Seq<char>) -> bool {
    let a = components(path);
    let b = components(base);
    b.len() <= a.len() && a.take(b.len() as int) == b
}

/// The components of a path.
pub fn path_components(path: &[char]) -> (r: Vec<String>)
    ensures
        text::string_views(r@) == components(path@),
{
    let pieces = text::split_at_char(path, '/');
    let ghost all = text::views(pieces@);
    let mut out: Vec<String> = Vec::new();
    let ghost mut root: Seq<Seq<char>> = seq![];
    if path.len() > 0 && path[0] == '/' {
        out.push("/".to_owned());
        proof {
            root = seq!["/"@];
        }
        assert(text::string_views(out@) == root);
    }
    let mut i: usize = 0;
    while i < pieces.len()
        invariant
            i <= pieces.len(),
            all == text::views(pieces@),
            text::string_views(out@) == root + steps(all, i as int),
        decreases pieces.len() - i,
    {
        assert(all[i as int] == pieces@[i as int]@);
        if pieces[i].len() == 0 || (text::same(pieces[i], ".") && i > 0) {
            assert(steps(all, i + 1) == steps(all, i as int));
        } else {
            let ghost before = out@;
            out.push(text::string_of(pieces[i]));
            proof {
                assert(text::string_views(out@) == text::string_views(before).push(
                    all[i as int],
                ));
            }
        }
        i = i + 1;
    }
    assert(all.len() == pieces@.len());
    out
}

/// Whether a path lies at or below another, component by component: `/var/lib/agent`
/// does not lie under `/var/lib/a`.
pub fn path_starts_with(path: &str, base: &str) -> (r: bool)
    ensures
        r == lies_under(path@, base@),
{
    let p = text::chars_of(path);
    let b = text::chars_of(base);
    let a = path_components(p.as_slice());
    let c = path_components(b.as_slice());
    let ghost va = text::string_views(a@);
    let ghost vc = text::string_views(c@);
    assert(va.len() == a@.len() && vc.len() == c@.len());
    if c.len() > a.len() {
        return false;
    }
    let mut i: usize = 0;
    while i < c.len()
        invariant
            i <= c.len() <= a.len(),
            va == text::string_views(a@),
            vc == text::string_views(c@),
            va == components(path@),
            vc == components(base@),
            va.take(i as int) == vc.take(i as int),
        decreases c.len() - i,
    {
        assert(va[i as int] == a@[i as int]@);
        assert(vc[i as int] == c@[i as int]@);
        if !text::same_str(a[i].as_str(), c[i].as_str()) {
            proof {
                if va.take(vc.len() as int) == vc {
                    assert(va.take(vc.len() as int)[i as int] == vc[i as int]);
                }
            }
            return false;
        }
        assert(va.take(i + 1) == va.take(i as int).push(va[i as int]));
        assert(vc.take(i + 1) == vc.take(i as int).push(vc[i as int]));
        i = i + 1;
    }
    assert(vc.take(vc.len() as int) == vc);
    true
}

/// The last component of a path, where it is a name.
pub open spec fn name_in(path: Seq<char>) -> Option<Seq<char>> {
    let parts = components(path);
    if parts.len() == 0 || parts.last() == "/"@ || parts.last() == "."@ || parts.last() == ".."@ {
        None
    } else {
        Some(parts.last())
    }
}

/// The last component of a path, where it is a name.
pub fn file_name(path: &str) -> (r: Option<String>)
    ensures
        text::optional(r) == name_in(path@),
{
    let chars = text::chars_of(path);
    let parts = path_components(chars.as_slice());
    let n: usize = parts.len();
    assert(text::string_views(parts@).len() == n);
    if n == 0 {
        return None;
    }
    assert(text::string_views(parts@)[n - 1] == parts@[n - 1]@);
    let last = parts[n - 1].as_str();
    if text::same_str(last, "/") || text::same_str(last, ".") || text::same_str(last, "..") {
        None
    } else {
        Some(last.to_owned())
    }
}

/// Whether piece `i` of a path names a step.
pub open spec fn is_step(pieces: Seq<Seq<char>>, i: int) -> bool {
    pieces[i].len() > 0 && !(pieces[i] == "."@ && i > 0)
}

/// The last of the first `n` pieces that names a step.
pub open spec fn last_step(pieces: Seq<Seq<char>>, n: int) -> Option<int>
    decreases n,
{
    if n <= 0 || n > pieces.len() {
        None
    } else if is_step(pieces, n - 1) {
        Some(n - 1)
    } else {
        last_step(pieces, n - 1)
    }
}

/// The directory that a path lies in: the path up to the step before its last. The root
/// lies in none.
pub open spec fn parent_in(path: Seq<char>) -> Option<Seq<char>> {
    let pieces = text::split_char(path, '/');
    match last_step(pieces, pieces.len() as int) {
        None => None,
        Some(m) => match last_step(pieces, m) {
            Some(k) => Some(text::join(pieces.take(k + 1), "/"@)),
            None => if path.len() > 0 && path[0] == '/' {
                Some("/"@)
            } else {
                Some(""@)
            },
        },
    }
}

fn step_before(pieces: &Vec<&[char]>, n: usize) -> (r: Option<usize>)
    requires
        n <= pieces@.len(),
    ensures
        match r {
            Some(k) => k < n && last_step(text::views(pieces@), n as int) == Some(k as int),
            None => last_step(text::views(pieces@), n as int) is None,
        },
{
    let ghost all = text::views(pieces@);
    let mut i: usize = n;
    while i > 0
        invariant
            i <= n <= pieces@.len(),
            all == text::views(pieces@),
            last_step(all, n as int) == last_step(all, i as int),
        decreases i,
    {
        assert(all[i - 1] == pieces@[i - 1]@);
        if pieces[i - 1].len() > 0 && !(text::same(pieces[i - 1], ".") && i > 1) {
            return Some(i - 1);
        }
        i = i - 1;
    }
    None
}

/// The directory that a path lies in.
pub fn parent(path: &str) -> (r: Option<String>)
    ensures
        text::optional(r) == parent_in(path@),
{
    let chars = text::chars_of(path);
    let pieces = text::split_at_char(chars.as_slice(), '/');
    let ghost all = text::views(pieces@);
    assert(all.len() == pieces@.len());
    let m: usize = match step_before(&pieces, pieces.len()) {
        Some(m) => m,
        None => return None,
    };
    let k: usize = match step_before(&pieces, m) {
        Some(k) => k,
        None => {
            return if chars.len() > 0 && chars[0] == '/' {
                Some("/".to_owned())
            } else {
                Some("".to_owned())
            };
        },
    };
    let mut kept: Vec<String> = Vec::new();
    let mut i: usize = 0;
    assert(text::string_views(kept@) =~= all.take(0));
    let end: usize = k + 1;
    while i < end
        invariant
            i <= end <= pieces.len(),
            all == text::views(pieces@),
            text::string_views(kept@) == all.take(i as int),
        decreases end - i,
    {
        let ghost before = kept@;
        assert(all[i as int] == pieces@[i as int]@);
        kept.push(text::string_of(pieces[i]));
        assert(text::string_views(kept@) =~= text::string_views(before).push(all[i as int]));
        assert(all.take(i + 1) =~= all.take(i as int).push(all[i as int]));
        i = i + 1;
    }
    Some(text::join_strings(&kept, "/"))
}

proof fn lemma_last_step(pieces: Seq<Seq<char>>, n: int)
    requires
        0 <= n <= pieces.len(),
    ensures
        match last_step(pieces, n) {
            Some(m) => 0 <= m < n && is_step(pieces, m) && steps(pieces, n) == steps(
                pieces,
                m,
            ).push(pieces[m]),
            None => steps(pieces, n) == Seq::<Seq<char>>::empty(),
        },
    decreases n,
{
    if n > 0 {
        lemma_last_step(pieces, n - 1);
    }
}

proof fn lemma_steps_of_front(pieces: Seq<Seq<char>>, front: int, n: int)
    requires
        0 <= n <= front <= pieces.len(),
    ensures
        steps(pieces.take(front), n) == steps(pieces, n),
    decreases n,
{
    if n > 0 {
        lemma_steps_of_front(pieces, front, n - 1);
    }
}

/// A path lies in the directory that has all its components but the last; one without
/// components, and the root, lie in none.
pub proof fn lemma_parent_lacks_the_last_component(path: Seq<char>)
    ensures
        match parent_in(path) {
            Some(dir) => components(path).len() > 0 && components(dir) == components(
                path,
            ).drop_last(),
            None => components(path).len() == 0 || components(path) == seq!["/"@],
        },
{
    reveal_strlit("/");
    reveal_strlit("");
    assert("/"@ =~= seq!['/']);
    let pieces = text::split_char(path, '/');
    let n = pieces.len() as int;
    text::lemma_split_char(path, '/');
    lemma_last_step(pieces, n);
    let rooted = path.len() > 0 && path[0] == '/';
    let root = if rooted {
        seq!["/"@]
    } else {
        Seq::<Seq<char>>::empty()
    };
    assert(components(path) =~= root + steps(pieces, n));
    match last_step(pieces, n) {
        None => {
            assert(components(path) =~= root);
        },
        Some(m) => {
            lemma_last_step(pieces, m);
            assert(components(path).drop_last() =~= root + steps(pieces, m));
            match last_step(pieces, m) {
                Some(k) => {
                    let front = pieces.take(k + 1);
                    let dir = text::join(front, "/"@);
                    assert forall|i: int| 0 <= i < front.len() implies !(#[trigger]
                    front[i]).contains('/') by {
                        assert(front[i] == pieces[i]);
                    }
                    text::lemma_split_joined(front, '/', "/"@);
                    lemma_steps_of_front(pieces, k + 1, k + 1);
                    lemma_steps_of_front(pieces, k + 1, k);
                    assert(steps(pieces, k + 1) == steps(pieces, k).push(pieces[k]));
                    text::lemma_joined_start(front, '/', "/"@);
                    text::lemma_joined_start(pieces, '/', "/"@);
                    assert(front[0] == pieces[0]);
                    assert(front[k] == pieces[k]);
                    assert((dir.len() > 0 && dir[0] == '/') == rooted);
                    assert(components(dir) =~= root + steps(front, k + 1));
                },
                None => {
                    if rooted {
                        let dir = "/"@;
                        assert(dir =~= seq!['/']);
                        text::lemma_find_char_at(dir, '/', 0, 0);
                        assert(dir.take(0) =~= seq![]);
                        assert(dir.skip(1) =~= seq![]);
                        let nothing = Seq::<char>::empty();
                        assert(text::split_char(nothing, '/') =~= seq![nothing]);
                        assert(text::split_char(dir, '/') =~= seq![nothing, nothing]);
                        reveal_with_fuel(steps, 3);
                        assert(components(dir) =~= root);
                    } else {
                        let dir = ""@;
                        assert(dir =~= seq![]);
                        assert(text::split_char(dir, '/') =~= seq![dir]);
                        reveal_with_fuel(steps, 2);
                        assert(components(dir) =~= root);
                    }
                    assert(root + steps(pieces, m) =~= root);
                },
            }
        },
    }
}

/// The step that comes next where the one before succeeded.
pub open spec fn next_replace_step(stage: Replacing) -> ReplaceStep {
    match stage {
        Replacing::Opened => ReplaceStep::Write,
        Replacing::Written => ReplaceStep::SyncFile,
        Replacing::Synced => ReplaceStep::Rename,
        Replacing::Renamed => ReplaceStep::SyncDirectory,
        Replacing::Complete => ReplaceStep::Done,
    }
}

/// What there is of a new file: whether its contents are written, whether they would outlast
/// a loss of power, whether it has the name, whether that would, and whether the name ever
/// stood for contents that would not.
pub struct OnDisk {
    pub written: bool,
    pub durable: bool,
    pub named: bool,
    pub lasting: bool,
    pub torn: bool,
}

/// What a step that succeeds makes of it, and how far it has come then.
pub open spec fn after_replace_step(disk: OnDisk, step: ReplaceStep) -> (OnDisk, Replacing) {
    match step {
        ReplaceStep::Write => (OnDisk { written: true, ..disk }, Replacing::Written),
        ReplaceStep::SyncFile => (OnDisk { durable: disk.written, ..disk }, Replacing::Synced),
        ReplaceStep::Rename => (
            OnDisk { named: true, torn: disk.torn || !disk.durable, ..disk },
            Replacing::Renamed,
        ),
        ReplaceStep::SyncDirectory => (
            OnDisk { lasting: disk.named, ..disk },
            Replacing::Complete,
        ),
        _ => (disk, Replacing::Complete),
    }
}

/// What there is of a new file once its steps are done, where they all succeed and are no more
/// than so many.
pub open spec fn replaced(stage: Replacing, disk: OnDisk, n: nat) -> Option<OnDisk>
    decreases n,
{
    if n == 0 {
        None
    } else if next_replace_step(stage) is Done {
        Some(disk)
    } else {
        let (after, next) = after_replace_step(disk, next_replace_step(stage));
        replaced(next, after, (n - 1) as nat)
    }
}

/// A file that was replaced is there in full and would outlast a loss of power, and so does its
/// name; and at no moment did the name stand for contents that would not.
pub proof fn lemma_replaced_file_is_never_torn()
    ensures
        replaced(
            Replacing::Opened,
            OnDisk { written: false, durable: false, named: false, lasting: false, torn: false },
            5,
        ) == Some(
            OnDisk { written: true, durable: true, named: true, lasting: true, torn: false },
        ),
{
    reveal_with_fuel(replaced, 6);
}

} // verus!
