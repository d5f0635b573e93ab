//! Backups: what they consist of, and whether they can be trusted.

use sha2::Digest;

use vstd::prelude::*;

use crate::error::{Error, ErrorView};
use crate::json::hex_digit;
use crate::text;
use crate::text::{decimal_of, earlier, replaced, views};

verus! {

broadcast use vstd::string::group_string_axioms;

// ── The manifest ─────────────────────────────────────────────────────────────────────

/// The version of the layout of a backup.
pub const BACKUP_FORMAT_VERSION: u32 = 1;

/// How much there was.
#[derive(Debug, Clone, Copy, PartialEq, Eq, Structural)]
pub struct BackupCounts {
    pub episodic_events: u64,
    pub memories: u64,
    pub semantic_vectors: u64,
}

/// One part of a backup, a file or a directory, and its digest.
#[derive(Debug)]
pub struct BackupArtifact {
    pub path: String,
    pub sha256: String,
}

pub struct ArtifactView {
    pub path: Seq<char>,
    pub sha256: Seq<char>,
}

impl View for BackupArtifact {
    type V = ArtifactView;

    open spec fn view(&self) -> ArtifactView {
        ArtifactView { path: self.path@, sha256: self.sha256@ }
    }
}

pub open spec fn artifact_views(v: Seq<BackupArtifact>) -> Seq<ArtifactView> {
    v.map_values(|a: BackupArtifact| a@)
}

/// What is written beside a backup.
#[derive(Debug)]
pub struct BackupManifest {
    pub format_version: u32,
    /// The version of the program that made it.
    pub ecphoria_version: String,
    pub created_at: i128,
    pub counts: BackupCounts,
    pub artifacts: Vec<BackupArtifact>,
}

/// The parts of a backup.
pub open spec fn part_names() -> Seq<Seq<char>> {
    seq!["episodic_export"@, "memories_export"@, "vectors"@, "state.db"@]
}

/// The parts of a backup, in the order of the manifest.
pub fn parts() -> (r: Vec<String>)
    ensures
        views(r@) == part_names(),
{
    let mut v: Vec<String> = Vec::new();
    v.push("episodic_export".to_owned());
    v.push("memories_export".to_owned());
    v.push("vectors".to_owned());
    v.push("state.db".to_owned());
    proof {
        assert(views(v@) =~= part_names());
    }
    v
}

/// What is wrong with a part, if anything.
pub open spec fn mismatch(a: ArtifactView, actual: Seq<char>) -> Seq<char> {
    "backup integrity check failed for '"@ + a.path + "': manifest "@ + a.sha256 + " != actual "@
        + actual
}

/// The first part whose digest is not the one in the manifest.
pub open spec fn first_mismatch(artifacts: Seq<ArtifactView>, actual: Seq<Seq<char>>) -> Option<int>
    decreases artifacts.len(),
{
    if artifacts.len() == 0 {
        None
    } else {
        match first_mismatch(artifacts.drop_last(), actual) {
            Some(i) => Some(i),
            None => if artifacts.last().sha256 != actual[artifacts.len() - 1] {
                Some(artifacts.len() - 1)
            } else {
                None
            },
        }
    }
}

/// Can a backup be trusted? Not one of a newer layout, and not one with a part that changed.
pub open spec fn verified(
    version: u32,
    artifacts: Seq<ArtifactView>,
    actual: Seq<Seq<char>>,
) -> Result<(), ErrorView> {
    if version > BACKUP_FORMAT_VERSION {
        Err(
            ErrorView::Storage(
                "backup manifest format v"@ + decimal_of(version as nat)
                    + " is newer than this build supports (v"@ + decimal_of(
                    BACKUP_FORMAT_VERSION as nat,
                ) + "); upgrade Ecphoria"@,
            ),
        )
    } else {
        match first_mismatch(artifacts, actual) {
            Some(i) => Err(ErrorView::Storage(mismatch(artifacts[i], actual[i]))),
            None => Ok(()),
        }
    }
}

/// Is the layout of a backup one that can be read?
pub fn check_format(manifest: &BackupManifest) -> (r: Result<(), Error>)
    ensures
        match (r, verified(manifest.format_version, seq![], seq![])) {
            (Ok(()), Ok(())) => true,
            (Err(e), Err(expected)) => e@ == expected,
            _ => false,
        },
{
    if manifest.format_version > BACKUP_FORMAT_VERSION {
        return Err(
            Error::Storage(
                text::cat5(
                    "backup manifest format v",
                    text::decimal(manifest.format_version as u64).as_str(),
                    " is newer than this build supports (v",
                    text::decimal(BACKUP_FORMAT_VERSION as u64).as_str(),
                    "); upgrade Ecphoria",
                ),
            ),
        );
    }
    Ok(())
}

/// Checks a backup before it is restored: its layout, and the digest of each of its parts. `actual`
/// holds the digests that were found, in the order of the manifest.
pub fn verify_manifest(manifest: &BackupManifest, actual: &Vec<String>) -> (r: Result<(), Error>)
    requires
        actual@.len() == manifest.artifacts@.len(),
    ensures
        match (
            r,
            verified(
                manifest.format_version,
                artifact_views(manifest.artifacts@),
                views(actual@),
            ),
        ) {
            (Ok(()), Ok(())) => true,
            (Err(e), Err(expected)) => e@ == expected,
            _ => false,
        },
{
    match check_format(manifest) {
        Err(e) => {
            return Err(e);
        },
        Ok(()) => {},
    }
    let ghost all = artifact_views(manifest.artifacts@);
    let ghost found = views(actual@);
    let mut i: usize = 0;
    proof {
        assert(all.take(0) =~= seq![]);
    }
    while i < manifest.artifacts.len()
        invariant
            i <= manifest.artifacts.len(),
            actual@.len() == manifest.artifacts@.len(),
            manifest.format_version <= BACKUP_FORMAT_VERSION,
            all == artifact_views(manifest.artifacts@),
            found == views(actual@),
            first_mismatch(all.take(i as int), found) is None,
        decreases manifest.artifacts.len() - i,
    {
        let a = &manifest.artifacts[i];
        proof {
            assert(all.take(i + 1).drop_last() =~= all.take(i as int));
            assert(all.take(i + 1).last() == a@);
            assert(found[i as int] == actual@[i as int]@);
        }
        if !text::same(a.sha256.as_str(), actual[i].as_str()) {
            proof {
                lemma_first_mismatch(all, found, i as int + 1);
            }
            let head = text::cat4(
                "backup integrity check failed for '",
                a.path.as_str(),
                "': manifest ",
                a.sha256.as_str(),
            );
            return Err(
                Error::Storage(text::cat3(head.as_str(), " != actual ", actual[i].as_str())),
            );
        }
        i += 1;
    }
    proof {
        assert(all.take(all.len() as int) =~= all);
    }
    Ok(())
}

/// What is wrong at the start is what is wrong first.
proof fn lemma_first_mismatch(artifacts: Seq<ArtifactView>, actual: Seq<Seq<char>>, n: int)
    requires
        0 <= n <= artifacts.len(),
        first_mismatch(artifacts.take(n), actual) is Some,
    ensures
        first_mismatch(artifacts, actual) == first_mismatch(artifacts.take(n), actual),
    decreases artifacts.len(),
{
    if n < artifacts.len() {
        assert(artifacts.drop_last().take(n) =~= artifacts.take(n));
        lemma_first_mismatch(artifacts.drop_last(), actual, n);
    } else {
        assert(artifacts.take(n) =~= artifacts);
    }
}

/// A backup is restored only as it was written: where it is trusted, every digest is the one in the
/// manifest.
pub proof fn law_only_whole_backups_are_restored(
    version: u32,
    artifacts: Seq<ArtifactView>,
    actual: Seq<Seq<char>>,
    i: int,
)
    requires
        verified(version, artifacts, actual) is Ok,
        0 <= i < artifacts.len(),
    ensures
        artifacts[i].sha256 == actual[i],
        version <= BACKUP_FORMAT_VERSION,
    decreases artifacts.len(),
{
    if i < artifacts.len() - 1 {
        assert(artifacts.drop_last()[i] == artifacts[i]);
        law_only_whole_backups_are_restored(version, artifacts.drop_last(), actual, i);
    }
}

// ── Digests ──────────────────────────────────────────────────────────────────────────

/// What SHA-256 makes of bytes.
pub uninterp spec fn sha256(bytes: Seq<u8>) -> Seq<u8>;

/// `sha2::Sha256::digest`: the digest of bytes, 32 bytes of its own.
#[verifier::external_body]
fn digest(bytes: &Vec<u8>) -> (r: Vec<u8>)
    ensures
        r@ == sha256(bytes@),
        r@.len() == 32,
{
    sha2::Sha256::digest(bytes).to_vec()
}

/// Bytes in hexadecimal notation, two digits each.
pub open spec fn hex(bytes: Seq<u8>) -> Seq<char>
    decreases bytes.len(),
{
    if bytes.len() == 0 {
        seq![]
    } else {
        hex(bytes.drop_last()) + seq![
            hex_digit(bytes.last() as int / 16),
            hex_digit(bytes.last() as int % 16),
        ]
    }
}

fn nibble(d: u8) -> (r: char)
    requires
        d < 16,
    ensures
        r == hex_digit(d as int),
{
    if d < 10 {
        (48u8 + d) as char
    } else {
        (97u8 + (d - 10)) as char
    }
}

fn write_hex(bytes: &Vec<u8>) -> (r: String)
    ensures
        r@ == hex(bytes@),
{
    let mut out: Vec<char> = Vec::new();
    let mut i: usize = 0;
    proof {
        assert(bytes@.take(0) =~= seq![]);
        assert(out@ =~= hex(bytes@.take(0)));
    }
    while i < bytes.len()
        invariant
            i <= bytes.len(),
            out@ == hex(bytes@.take(i as int)),
        decreases bytes.len() - i,
    {
        let ghost before = out@;
        out.push(nibble(bytes[i] / 16));
        out.push(nibble(bytes[i] % 16));
        i += 1;
        proof {
            assert(bytes@.take(i as int).drop_last() =~= bytes@.take(i - 1));
            assert(bytes@.take(i as int).last() == bytes@[i - 1]);
            assert(out@ =~= before + seq![
                hex_digit(bytes@[i - 1] as int / 16),
                hex_digit(bytes@[i - 1] as int % 16),
            ]);
        }
    }
    proof {
        assert(bytes@.take(bytes@.len() as int) =~= bytes@);
    }
    text::string(&out)
}

/// The digest of a file.
pub fn sha256_file(bytes: &Vec<u8>) -> (r: String)
    ensures
        r@ == hex(sha256(bytes@)),
{
    write_hex(&digest(bytes))
}

/// A file of a directory tree: its path from the top, with `/` between the names, and its bytes.
#[derive(Debug)]
pub struct TreeFile {
    pub path: String,
    pub bytes: Vec<u8>,
}

pub struct FileView {
    pub path: Seq<char>,
    pub bytes: Seq<u8>,
}

impl View for TreeFile {
    type V = FileView;

    open spec fn view(&self) -> FileView {
        FileView { path: self.path@, bytes: self.bytes@ }
    }
}

pub open spec fn file_views(v: Seq<TreeFile>) -> Seq<FileView> {
    v.map_values(|f: TreeFile| f@)
}

/// What paths are ordered by: name by name. The end of a name comes before every character of one.
pub open spec fn path_key(path: Seq<char>) -> Seq<char> {
    replaced(path, "/"@, "\0"@)
}

/// Does a file come before another?
pub open spec fn before(a: FileView, b: FileView) -> bool {
    earlier(path_key(a.path), path_key(b.path))
}

/// Where a file goes among ordered files: before the first that it comes before.
pub open spec fn spot(sorted: Seq<FileView>, f: FileView) -> int
    decreases sorted.len(),
{
    if sorted.len() == 0 {
        0
    } else {
        let at = spot(sorted.drop_last(), f);
        if at < sorted.len() - 1 {
            at
        } else if before(f, sorted.last()) {
            sorted.len() - 1
        } else {
            sorted.len() as int
        }
    }
}

/// Files in the order of their paths.
pub open spec fn ordered(files: Seq<FileView>) -> Seq<FileView>
    decreases files.len(),
{
    if files.len() == 0 {
        files
    } else {
        let sorted = ordered(files.drop_last());
        sorted.insert(spot(sorted, files.last()), files.last())
    }
}

/// The bytes by which a file counts: its path, a zero, and its own.
pub open spec fn contribution(f: FileView) -> Seq<u8> {
    vstd::utf8::encode_utf8(f.path).push(0) + f.bytes
}

pub open spec fn contributions(files: Seq<FileView>) -> Seq<u8>
    decreases files.len(),
{
    if files.len() == 0 {
        seq![]
    } else {
        contributions(files.drop_last()) + contribution(files.last())
    }
}

/// The digest of a directory tree.
pub open spec fn tree_digest(files: Seq<FileView>) -> Seq<char> {
    hex(sha256(contributions(ordered(files))))
}

proof fn lemma_spot(sorted: Seq<FileView>, f: FileView)
    ensures
        0 <= spot(sorted, f) <= sorted.len(),
        forall|i: int| 0 <= i < spot(sorted, f) ==> !before(f, #[trigger] sorted[i]),
        spot(sorted, f) < sorted.len() ==> before(f, sorted[spot(sorted, f)]),
    decreases sorted.len(),
{
    if sorted.len() > 0 {
        let rest = sorted.drop_last();
        lemma_spot(rest, f);
        assert forall|i: int| 0 <= i < spot(sorted, f) implies !before(f, #[trigger] sorted[i]) by {
            if i < rest.len() {
                assert(rest[i] == sorted[i]);
            }
        }
    }
}

proof fn lemma_spot_unique(sorted: Seq<FileView>, f: FileView, at: int)
    requires
        0 <= at <= sorted.len(),
        forall|i: int| 0 <= i < at ==> !before(f, #[trigger] sorted[i]),
        at < sorted.len() ==> before(f, sorted[at]),
    ensures
        at == spot(sorted, f),
{
    lemma_spot(sorted, f);
    let s = spot(sorted, f);
    if at < s {
        assert(!before(f, sorted[at]));
    }
    if s < at {
        assert(!before(f, sorted[s]));
    }
}

fn copy_file(f: &TreeFile) -> (r: TreeFile)
    ensures
        r@ == f@,
{
    let mut bytes: Vec<u8> = Vec::new();
    let mut i: usize = 0;
    proof {
        assert(bytes@ =~= f.bytes@.take(0));
    }
    while i < f.bytes.len()
        invariant
            i <= f.bytes.len(),
            bytes@ == f.bytes@.take(i as int),
        decreases f.bytes.len() - i,
    {
        bytes.push(f.bytes[i]);
        i += 1;
        proof {
            assert(f.bytes@.take(i as int) =~= f.bytes@.take(i - 1).push(f.bytes@[i - 1]));
        }
    }
    proof {
        assert(f.bytes@.take(f.bytes@.len() as int) =~= f.bytes@);
    }
    TreeFile { path: f.path.clone(), bytes }
}

fn key_of(path: &str) -> (r: String)
    ensures
        r@ == path_key(path@),
{
    proof {
        reveal_strlit("/");
        assert("/"@.len() == 1);
    }
    text::replace(path, "/", "\0")
}

fn order_files(files: &Vec<TreeFile>) -> (r: Vec<TreeFile>)
    ensures
        file_views(r@) == ordered(file_views(files@)),
{
    let ghost all = file_views(files@);
    let mut out: Vec<TreeFile> = Vec::new();
    let mut i: usize = 0;
    proof {
        assert(all.take(0) =~= seq![]);
        assert(file_views(out@) =~= ordered(all.take(0)));
    }
    while i < files.len()
        invariant
            i <= files.len(),
            all == file_views(files@),
            out.len() == i,
            file_views(out@) == ordered(all.take(i as int)),
        decreases files.len() - i,
    {
        let key = key_of(files[i].path.as_str());
        let mut at: usize = 0;
        while at < out.len() && !text::is_earlier(
            key.as_str(),
            key_of(out[at].path.as_str()).as_str(),
        )
            invariant
                i < files.len(),
                at <= out.len(),
                key@ == path_key(files@[i as int]@.path),
                forall|k: int| 0 <= k < at ==> !before(files@[i as int]@, (#[trigger] out@[k])@),
            decreases out.len() - at,
        {
            at += 1;
        }
        let f = copy_file(&files[i]);
        let ghost v = f@;
        let ghost was = out@;
        proof {
            assert(all.take(i + 1).drop_last() =~= all.take(i as int));
            assert(all.take(i + 1).last() == all[i as int]);
            let sorted = file_views(out@);
            assert forall|k: int| 0 <= k < at implies !before(v, #[trigger] sorted[k]) by {
                assert(sorted[k] == out@[k]@);
            }
            lemma_spot_unique(sorted, v, at as int);
        }
        out.insert(at, f);
        i += 1;
        proof {
            assert(file_views(out@) =~= file_views(was).insert(at as int, v));
        }
    }
    proof {
        assert(all.take(all.len() as int) =~= all);
    }
    out
}

fn extend_bytes(out: &mut Vec<u8>, more: &[u8])
    ensures
        final(out)@ == old(out)@ + more@,
{
    let ghost start = out@;
    let mut i: usize = 0;
    proof {
        assert(out@ =~= start + more@.take(0));
    }
    while i < more.len()
        invariant
            i <= more.len(),
            out@ == start + more@.take(i as int),
        decreases more.len() - i,
    {
        out.push(more[i]);
        i += 1;
        proof {
            assert(more@.take(i as int) =~= more@.take(i - 1).push(more@[i - 1]));
            assert(out@ =~= start + more@.take(i as int));
        }
    }
    proof {
        assert(more@.take(more@.len() as int) =~= more@);
    }
}

/// The digest of a directory tree, from its files in any order.
pub fn sha256_path(files: &Vec<TreeFile>) -> (r: String)
    ensures
        r@ == tree_digest(file_views(files@)),
{
    let sorted = order_files(files);
    let ghost all = file_views(sorted@);
    let mut bytes: Vec<u8> = Vec::new();
    let mut i: usize = 0;
    proof {
        assert(all.take(0) =~= seq![]);
        assert(bytes@ =~= contributions(all.take(0)));
    }
    while i < sorted.len()
        invariant
            i <= sorted.len(),
            all == file_views(sorted@),
            bytes@ == contributions(all.take(i as int)),
        decreases sorted.len() - i,
    {
        let ghost start = bytes@;
        proof {
            assert(all.take(i + 1).drop_last() =~= all.take(i as int));
            assert(all.take(i + 1).last() == sorted@[i as int]@);
        }
        extend_bytes(&mut bytes, sorted[i].path.as_str().as_bytes());
        bytes.push(0);
        extend_bytes(&mut bytes, sorted[i].bytes.as_slice());
        proof {
            assert(bytes@ =~= start + contribution(sorted@[i as int]@));
        }
        i += 1;
    }
    proof {
        assert(all.take(all.len() as int) =~= all);
    }
    sha256_file(&bytes)
}

/// Are the paths of the files such that no two are the same?
pub open spec fn distinct_paths(files: Seq<FileView>) -> bool {
    forall|i: int, j: int|
        0 <= i < files.len() && 0 <= j < files.len() && i != j ==> path_key(
            (#[trigger] files[i]).path,
        ) != path_key((#[trigger] files[j]).path)
}

spec fn strictly_ordered(files: Seq<FileView>) -> bool {
    forall|i: int, j: int|
        0 <= i < j < files.len() ==> before(#[trigger] files[i], #[trigger] files[j])
}

proof fn lemma_ordered(files: Seq<FileView>)
    requires
        distinct_paths(files),
    ensures
        strictly_ordered(ordered(files)),
        ordered(files).to_multiset() == files.to_multiset(),
    decreases files.len(),
{
    broadcast use vstd::seq_lib::group_to_multiset_ensures;

    if files.len() > 0 {
        let rest = files.drop_last();
        let f = files.last();
        assert(distinct_paths(rest)) by {
            assert forall|i: int, j: int|
                0 <= i < rest.len() && 0 <= j < rest.len() && i != j implies path_key(
                (#[trigger] rest[i]).path,
            ) != path_key((#[trigger] rest[j]).path) by {
                assert(rest[i] == files[i] && rest[j] == files[j]);
            }
        }
        lemma_ordered(rest);
        let sorted = ordered(rest);
        let at = spot(sorted, f);
        lemma_spot(sorted, f);
        let all = ordered(files);
        assert(files =~= rest.push(f));
        assert(all.to_multiset() =~= sorted.to_multiset().insert(f));
        // The file is no other's twin, so what it does not come before comes before it.
        assert forall|i: int| 0 <= i < sorted.len() implies path_key((#[trigger] sorted[i]).path)
            != path_key(f.path) by {
            assert(sorted.to_multiset().count(sorted[i]) > 0) by {
                assert(sorted.contains(sorted[i]));
            }
            assert(rest.to_multiset().count(sorted[i]) > 0);
            assert(rest.contains(sorted[i]));
            let k = choose|k: int| 0 <= k < rest.len() && rest[k] == sorted[i];
            assert(files[k] == rest[k]);
            assert(files[files.len() - 1] == f);
        }
        assert forall|i: int, j: int| 0 <= i < j < all.len() implies before(
            #[trigger] all[i],
            #[trigger] all[j],
        ) by {
            if j < at {
                assert(all[i] == sorted[i] && all[j] == sorted[j]);
            } else if j == at {
                assert(all[i] == sorted[i]);
                text::lemma_earlier_total(path_key(f.path), path_key(sorted[i].path));
            } else if i < at {
                assert(all[i] == sorted[i] && all[j] == sorted[j - 1]);
            } else if i == at {
                assert(all[j] == sorted[j - 1]);
                if j - 1 > at {
                    assert(before(sorted[at], sorted[j - 1]));
                    text::lemma_earlier_transitive(
                        path_key(f.path),
                        path_key(sorted[at].path),
                        path_key(sorted[j - 1].path),
                    );
                }
            } else {
                assert(all[i] == sorted[i - 1] && all[j] == sorted[j - 1]);
            }
        }
    }
}

proof fn lemma_one_order(a: Seq<FileView>, b: Seq<FileView>)
    requires
        strictly_ordered(a),
        strictly_ordered(b),
        a.to_multiset() == b.to_multiset(),
    ensures
        a == b,
    decreases a.len(),
{
    broadcast use vstd::seq_lib::group_to_multiset_ensures;

    assert(a.to_multiset().len() == a.len());
    assert(b.to_multiset().len() == b.len());
    if a.len() == 0 {
        assert(a =~= b);
    } else {
        assert(a.contains(a[0]));
        assert(b.to_multiset().count(a[0]) > 0);
        assert(b.contains(a[0]));
        let i = choose|i: int| 0 <= i < b.len() && b[i] == a[0];
        assert(b.contains(b[0]));
        assert(a.to_multiset().count(b[0]) > 0);
        assert(a.contains(b[0]));
        let j = choose|j: int| 0 <= j < a.len() && a[j] == b[0];
        if i > 0 {
            assert(before(b[0], b[i]));
            text::lemma_earlier_total(path_key(a[0].path), path_key(b[0].path));
            if j > 0 {
                assert(before(a[0], a[j]));
            }
            assert(false);
        }
        let ta = a.drop_first();
        let tb = b.drop_first();
        assert(a =~= seq![a[0]] + ta);
        assert(a.remove(0) =~= ta);
        assert(b.remove(0) =~= tb);
        assert(ta.to_multiset() =~= a.to_multiset().remove(a[0]));
        assert(tb.to_multiset() =~= b.to_multiset().remove(b[0]));
        assert forall|x: int, y: int| 0 <= x < y < ta.len() implies before(
            #[trigger] ta[x],
            #[trigger] ta[y],
        ) by {
            assert(ta[x] == a[x + 1] && ta[y] == a[y + 1]);
        }
        assert forall|x: int, y: int| 0 <= x < y < tb.len() implies before(
            #[trigger] tb[x],
            #[trigger] tb[y],
        ) by {
            assert(tb[x] == b[x + 1] && tb[y] == b[y + 1]);
        }
        lemma_one_order(ta, tb);
        assert(a =~= b) by {
            assert forall|k: int| 0 <= k < a.len() implies a[k] == b[k] by {
                if k > 0 {
                    assert(ta[k - 1] == a[k]);
                    assert(tb[k - 1] == b[k]);
                }
            }
        }
    }
}

/// The digest of a directory tree does not depend on the order in which its files were listed.
pub proof fn law_tree_digests_ignore_the_listing(a: Seq<FileView>, b: Seq<FileView>)
    requires
        a.to_multiset() == b.to_multiset(),
        distinct_paths(a),
        distinct_paths(b),
    ensures
        tree_digest(a) == tree_digest(b),
{
    lemma_ordered(a);
    lemma_ordered(b);
    lemma_one_order(ordered(a), ordered(b));
}

// ── Old backups ──────────────────────────────────────────────────────────────────────

/// Where a name goes among ordered names.
pub open spec fn name_spot(sorted: Seq<Seq<char>>, name: Seq<char>) -> int
    decreases sorted.len(),
{
    if sorted.len() == 0 {
        0
    } else {
        let at = name_spot(sorted.drop_last(), name);
        if at < sorted.len() - 1 {
            at
        } else if earlier(name, sorted.last()) {
            sorted.len() - 1
        } else {
            sorted.len() as int
        }
    }
}

/// Names in the order of the dictionary. A name is the time of its backup, so that the oldest comes
/// first.
pub open spec fn by_name(names: Seq<Seq<char>>) -> Seq<Seq<char>>
    decreases names.len(),
{
    if names.len() == 0 {
        names
    } else {
        let sorted = by_name(names.drop_last());
        sorted.insert(name_spot(sorted, names.last()), names.last())
    }
}

/// The backups that go where at most `max` are kept: the oldest. None go where there is no limit.
pub open spec fn outdated(names: Seq<Seq<char>>, max: nat) -> Seq<Seq<char>> {
    if max == 0 || names.len() <= max {
        seq![]
    } else {
        by_name(names).take(names.len() - max)
    }
}

proof fn lemma_name_spot(sorted: Seq<Seq<char>>, name: Seq<char>)
    ensures
        0 <= name_spot(sorted, name) <= sorted.len(),
        forall|i: int| 0 <= i < name_spot(sorted, name) ==> !earlier(name, #[trigger] sorted[i]),
        name_spot(sorted, name) < sorted.len() ==> earlier(name, sorted[name_spot(sorted, name)]),
    decreases sorted.len(),
{
    if sorted.len() > 0 {
        let rest = sorted.drop_last();
        lemma_name_spot(rest, name);
        assert forall|i: int| 0 <= i < name_spot(sorted, name) implies !earlier(
            name,
            #[trigger] sorted[i],
        ) by {
            if i < rest.len() {
                assert(rest[i] == sorted[i]);
            }
        }
    }
}

proof fn lemma_by_name_len(names: Seq<Seq<char>>)
    ensures
        by_name(names).len() == names.len(),
    decreases names.len(),
{
    if names.len() > 0 {
        lemma_by_name_len(names.drop_last());
        lemma_name_spot(by_name(names.drop_last()), names.last());
    }
}

proof fn lemma_name_spot_unique(sorted: Seq<Seq<char>>, name: Seq<char>, at: int)
    requires
        0 <= at <= sorted.len(),
        forall|i: int| 0 <= i < at ==> !earlier(name, #[trigger] sorted[i]),
        at < sorted.len() ==> earlier(name, sorted[at]),
    ensures
        at == name_spot(sorted, name),
{
    lemma_name_spot(sorted, name);
    let s = name_spot(sorted, name);
    if at < s {
        assert(!earlier(name, sorted[at]));
    }
    if s < at {
        assert(!earlier(name, sorted[s]));
    }
}

/// Names come in order.
proof fn lemma_by_name_sorted(names: Seq<Seq<char>>, i: int, j: int)
    requires
        0 <= i < j < by_name(names).len(),
    ensures
        !earlier(by_name(names)[j], by_name(names)[i]),
    decreases names.len(),
{
    lemma_by_name_len(names);
    if names.len() > 0 {
        let rest = names.drop_last();
        let name = names.last();
        let sorted = by_name(rest);
        let at = name_spot(sorted, name);
        lemma_name_spot(sorted, name);
        lemma_by_name_len(rest);
        let old_i = if i < at {
            i
        } else {
            i - 1
        };
        let old_j = if j < at {
            j
        } else {
            j - 1
        };
        if i != at && j != at {
            lemma_by_name_sorted(rest, old_i, old_j);
        } else if i == at {
            if at < old_j {
                lemma_by_name_sorted(rest, at, old_j);
            }
            // The name is before what stands at its spot, which is not after the later one.
            text::lemma_earlier_total(sorted[at], sorted[old_j]);
            text::lemma_earlier_total(name, sorted[old_j]);
            if earlier(sorted[old_j], name) {
                text::lemma_earlier_transitive(sorted[old_j], name, sorted[at]);
            }
        }
    }
}

/// What is kept is never older than what goes, and as many are kept as may be.
pub proof fn law_the_newest_backups_are_kept(names: Seq<Seq<char>>, max: nat, i: int, j: int)
    requires
        max > 0,
        names.len() > max,
        0 <= i < outdated(names, max).len(),
        outdated(names, max).len() <= j < names.len(),
    ensures
        outdated(names, max).len() + max == names.len(),
        !earlier(by_name(names)[j], outdated(names, max)[i]),
        by_name(names).to_multiset() == names.to_multiset(),
{
    lemma_by_name_len(names);
    lemma_by_name_sorted(names, i, j);
    lemma_by_name_multiset(names);
}

proof fn lemma_by_name_multiset(names: Seq<Seq<char>>)
    ensures
        by_name(names).to_multiset() == names.to_multiset(),
    decreases names.len(),
{
    broadcast use vstd::seq_lib::group_to_multiset_ensures;

    if names.len() > 0 {
        let rest = names.drop_last();
        lemma_by_name_multiset(rest);
        let sorted = by_name(rest);
        lemma_name_spot(sorted, names.last());
        assert(names =~= rest.push(names.last()));
        assert(by_name(names).to_multiset() =~= sorted.to_multiset().insert(names.last()));
    }
}

/// Picks the backups that go. `names` are those that look like one.
pub fn prune_backups(names: &Vec<String>, max: usize) -> (r: Vec<String>)
    ensures
        views(r@) == outdated(views(names@), max as nat),
{
    if max == 0 || names.len() <= max {
        let none: Vec<String> = Vec::new();
        proof {
            assert(views(none@) =~= seq![]);
        }
        return none;
    }
    let ghost all = views(names@);
    let mut out: Vec<String> = Vec::new();
    let mut i: usize = 0;
    proof {
        assert(all.take(0) =~= seq![]);
        assert(views(out@) =~= by_name(all.take(0)));
    }
    while i < names.len()
        invariant
            i <= names.len(),
            all == views(names@),
            out.len() == i,
            views(out@) == by_name(all.take(i as int)),
        decreases names.len() - i,
    {
        let mut at: usize = 0;
        while at < out.len() && !text::is_earlier(names[i].as_str(), out[at].as_str())
            invariant
                i < names.len(),
                at <= out.len(),
                forall|k: int| 0 <= k < at ==> !earlier(names@[i as int]@, (#[trigger] out@[k])@),
            decreases out.len() - at,
        {
            at += 1;
        }
        let ghost was = out@;
        proof {
            assert(all.take(i + 1).drop_last() =~= all.take(i as int));
            assert(all.take(i + 1).last() == names@[i as int]@);
            let sorted = views(out@);
            assert forall|k: int| 0 <= k < at implies !earlier(
                names@[i as int]@,
                #[trigger] sorted[k],
            ) by {
                assert(sorted[k] == out@[k]@);
            }
            lemma_name_spot_unique(sorted, names@[i as int]@, at as int);
        }
        out.insert(at, names[i].clone());
        i += 1;
        proof {
            assert(views(out@) =~= views(was).insert(at as int, names@[i - 1]@));
        }
    }
    let ghost sorted = out@;
    proof {
        assert(all.take(all.len() as int) =~= all);
        lemma_by_name_len(all);
    }
    out.truncate(names.len() - max);
    proof {
        assert(views(out@) =~= views(sorted).take(names@.len() - max));
    }
    out
}

// ── Elsewhere ────────────────────────────────────────────────────────────────────────

/// Is there a bucket for backups?
pub fn check_bucket(bucket: &str) -> (r: Result<(), Error>)
    ensures
        match r {
            Ok(()) => bucket@.len() > 0,
            Err(e) => bucket@.len() == 0 && e@ == ErrorView::Config(
                "S3 bucket not configured for backup"@,
            ),
        },
{
    if text::chars(bucket).len() == 0 {
        Err(Error::Config("S3 bucket not configured for backup".to_owned()))
    } else {
        Ok(())
    }
}

/// Where a backup goes: under its prefix, in a directory of its own.
pub open spec fn backup_dir(prefix: Seq<char>, timestamp: Seq<char>) -> Seq<char> {
    prefix + timestamp + "/"@
}

/// The key of a file of a backup.
pub open spec fn key_in(dir: Seq<char>, path: Seq<char>) -> Seq<char> {
    dir + path
}

/// The directory of a backup.
pub fn backup_prefix(prefix: &str, timestamp: &str) -> (r: String)
    ensures
        r@ == backup_dir(prefix@, timestamp@),
{
    text::cat3(prefix, timestamp, "/")
}

/// The keys of the files that have a name, or have not, in order.
pub open spec fn keys_where(
    dir: Seq<char>,
    paths: Seq<Seq<char>>,
    name: Seq<char>,
    named: bool,
) -> Seq<Seq<char>>
    decreases paths.len(),
{
    if paths.len() == 0 {
        seq![]
    } else {
        let before = keys_where(dir, paths.drop_last(), name, named);
        if (paths.last() == name) == named {
            before.push(key_in(dir, paths.last()))
        } else {
            before
        }
    }
}

/// The order in which the files of a backup are sent: the manifest last. It is what makes the rest a
/// backup, so that one that was broken off has none.
pub open spec fn sending_order(
    dir: Seq<char>,
    manifest: Seq<char>,
    paths: Seq<Seq<char>>,
) -> Seq<Seq<char>> {
    keys_where(dir, paths, manifest, false) + keys_where(dir, paths, manifest, true)
}

fn select_keys(dir: &str, paths: &Vec<String>, name: &str, named: bool) -> (r: Vec<String>)
    ensures
        views(r@) == keys_where(dir@, views(paths@), name@, named),
{
    let ghost all = views(paths@);
    let mut out: Vec<String> = Vec::new();
    let mut i: usize = 0;
    proof {
        assert(all.take(0) =~= seq![]);
        assert(views(out@) =~= seq![]);
    }
    while i < paths.len()
        invariant
            i <= paths.len(),
            all == views(paths@),
            views(out@) == keys_where(dir@, all.take(i as int), name@, named),
        decreases paths.len() - i,
    {
        let ghost was = out@;
        proof {
            assert(all.take(i + 1).drop_last() =~= all.take(i as int));
            assert(all.take(i + 1).last() == paths@[i as int]@);
        }
        if text::same(paths[i].as_str(), name) == named {
            let key = text::cat(dir, paths[i].as_str());
            let ghost v = key@;
            out.push(key);
            proof {
                assert(views(out@) =~= views(was).push(v));
            }
        }
        i += 1;
    }
    proof {
        assert(all.take(all.len() as int) =~= all);
    }
    out
}

/// The keys of the files of a backup, in the order in which they are sent, where `manifest` is the
/// name of the manifest's file.
pub fn backup_to_storage(dir: &str, manifest: &str, paths: &Vec<String>) -> (r: Vec<String>)
    ensures
        views(r@) == sending_order(dir@, manifest@, views(paths@)),
{
    let mut keys = select_keys(dir, paths, manifest, false);
    let mut last = select_keys(dir, paths, manifest, true);
    let ghost a = keys@;
    let ghost b = last@;
    keys.append(&mut last);
    proof {
        assert(views(keys@) =~= views(a) + views(b));
    }
    keys
}

/// Did a file not land?
pub open spec fn is_lost(key: Seq<char>, present: Seq<Seq<char>>, manifest: Seq<char>) -> bool {
    key != manifest && !text::listed(present, key)
}

/// What did not land.
pub open spec fn lost(keys: Seq<Seq<char>>, present: Seq<Seq<char>>, manifest: Seq<char>) -> Seq<
    Seq<char>,
> {
    keys.filter(|k: Seq<char>| is_lost(k, present, manifest))
}

/// Is a backup complete? Every file has to be there, and so has the manifest.
pub open spec fn landed(
    keys: Seq<Seq<char>>,
    present: Seq<Seq<char>>,
    manifest: Seq<char>,
) -> Result<(), ErrorView> {
    if lost(keys, present, manifest).len() > 0 {
        Err(
            ErrorView::Storage(
                "backup incomplete, not in storage: "@ + text::joined(
                    lost(keys, present, manifest),
                    ", "@,
                ),
            ),
        )
    } else if !text::listed(present, manifest) {
        Err(ErrorView::Storage("backup manifest missing: "@ + manifest))
    } else {
        Ok(())
    }
}

/// Holds what is in storage against what was sent. It is asked of each file: a directory that is
/// there can still have a hole in it.
pub fn confirm_upload(
    dir: &str,
    manifest: &str,
    keys: &Vec<String>,
    present: &Vec<String>,
) -> (r: Result<(), Error>)
    ensures
        match (r, landed(views(keys@), views(present@), key_in(dir@, manifest@))) {
            (Ok(()), Ok(())) => true,
            (Err(e), Err(expected)) => e@ == expected,
            _ => false,
        },
{
    let key = text::cat(dir, manifest);
    let ghost all = views(keys@);
    let ghost there = views(present@);
    let ghost p = |k: Seq<char>| is_lost(k, there, key@);
    let mut missing: Vec<String> = Vec::new();
    let mut i: usize = 0;
    proof {
        crate::seqs::lemma_filter_none(all, p);
        assert(views(missing@) =~= all.take(0).filter(p));
    }
    while i < keys.len()
        invariant
            i <= keys.len(),
            all == views(keys@),
            there == views(present@),
            p == |k: Seq<char>| is_lost(k, there, key@),
            views(missing@) == all.take(i as int).filter(p),
        decreases keys.len() - i,
    {
        let ghost was = missing@;
        proof {
            crate::seqs::lemma_filter_take(all, p, i as int);
            assert(all[i as int] == keys@[i as int]@);
        }
        if !text::same(keys[i].as_str(), key.as_str()) && !text::one_of(
            present,
            keys[i].as_str(),
        ) {
            missing.push(keys[i].clone());
            proof {
                assert(views(missing@) =~= views(was).push(all[i as int]));
            }
        }
        i += 1;
    }
    proof {
        assert(all.take(all.len() as int) =~= all);
        assert(views(missing@) == lost(all, there, key@));
        assert(views(missing@).len() == missing@.len());
    }
    if missing.len() > 0 {
        return Err(
            Error::Storage(
                text::cat(
                    "backup incomplete, not in storage: ",
                    text::join(&missing, ", ").as_str(),
                ),
            ),
        );
    }
    if !text::one_of(present, key.as_str()) {
        return Err(Error::Storage(text::cat("backup manifest missing: ", key.as_str())));
    }
    Ok(())
}

/// What was sent of a backup.
#[derive(Debug)]
pub struct UploadSummary {
    /// The directory that everything went into.
    pub prefix: String,
    pub manifest_key: String,
    /// How many artifacts the manifest lists.
    pub artifacts: usize,
    /// How large the files are together.
    pub bytes: u128,
}

pub open spec fn total(sizes: Seq<u64>) -> nat
    decreases sizes.len(),
{
    if sizes.len() == 0 {
        0
    } else {
        total(sizes.drop_last()) + sizes.last() as nat
    }
}

/// Sums up a backup that was sent, where `manifest` is the name of the manifest's file, `listed`
/// what it says, and `sizes` are those of the files.
pub fn summarize_upload(
    dir: &str,
    manifest: &str,
    listed: &BackupManifest,
    sizes: &Vec<u64>,
) -> (r: UploadSummary)
    ensures
        r.prefix@ == dir@,
        r.manifest_key@ == key_in(dir@, manifest@),
        r.artifacts == listed.artifacts@.len(),
        r.bytes == total(sizes@),
{
    let mut bytes: u128 = 0;
    let mut i: usize = 0;
    proof {
        assert(sizes@.take(0) =~= seq![]);
    }
    while i < sizes.len()
        invariant
            i <= sizes.len(),
            bytes == total(sizes@.take(i as int)),
            bytes <= i * 0xffff_ffff_ffff_ffff,
        decreases sizes.len() - i,
    {
        proof {
            assert(sizes@.take(i + 1).drop_last() =~= sizes@.take(i as int));
            assert(i * 0xffff_ffff_ffff_ffff <= 0xffff_ffff_ffff_ffff * 0xffff_ffff_ffff_ffff)
                by (nonlinear_arith)
                requires
                    i <= 0xffff_ffff_ffff_ffff,
            ;
        }
        bytes = bytes + sizes[i] as u128;
        i += 1;
    }
    proof {
        assert(sizes@.take(sizes@.len() as int) =~= sizes@);
    }
    UploadSummary {
        prefix: dir.to_owned(),
        manifest_key: text::cat(dir, manifest),
        artifacts: listed.artifacts.len(),
        bytes,
    }
}

proof fn lemma_named_keys(dir: Seq<char>, paths: Seq<Seq<char>>, name: Seq<char>, named: bool, i: int)
    requires
        0 <= i < keys_where(dir, paths, name, named).len(),
    ensures
        (keys_where(dir, paths, name, named)[i] == key_in(dir, name)) == named,
        text::begins(keys_where(dir, paths, name, named)[i], dir),
    decreases paths.len(),
{
    if paths.len() > 0 {
        let rest = keys_where(dir, paths.drop_last(), name, named);
        if i < rest.len() {
            lemma_named_keys(dir, paths.drop_last(), name, named, i);
        } else {
            let p = paths.last();
            assert(key_in(dir, p).skip(dir.len() as int) =~= p);
            assert(key_in(dir, name).skip(dir.len() as int) =~= name);
            assert(key_in(dir, p).take(dir.len() as int) =~= dir);
        }
    }
}

/// The manifest is sent after everything else, and every file goes into the directory of the backup.
pub proof fn law_the_manifest_is_sent_last(
    dir: Seq<char>,
    manifest: Seq<char>,
    paths: Seq<Seq<char>>,
    i: int,
    j: int,
)
    requires
        0 <= i < sending_order(dir, manifest, paths).len(),
        0 <= j < sending_order(dir, manifest, paths).len(),
        sending_order(dir, manifest, paths)[i] == key_in(dir, manifest),
        sending_order(dir, manifest, paths)[j] != key_in(dir, manifest),
    ensures
        j < i,
        text::begins(sending_order(dir, manifest, paths)[i], dir),
        text::begins(sending_order(dir, manifest, paths)[j], dir),
{
    let n = keys_where(dir, paths, manifest, false).len();
    if i < n {
        lemma_named_keys(dir, paths, manifest, false, i);
    } else {
        lemma_named_keys(dir, paths, manifest, true, i - n);
    }
    if j < n {
        lemma_named_keys(dir, paths, manifest, false, j);
    } else {
        lemma_named_keys(dir, paths, manifest, true, j - n);
    }
}

/// A backup that is reported complete is: every file that was sent is there, and so is the manifest.
pub proof fn law_complete_backups_are_whole(
    keys: Seq<Seq<char>>,
    present: Seq<Seq<char>>,
    manifest: Seq<char>,
    i: int,
)
    requires
        landed(keys, present, manifest) is Ok,
        0 <= i < keys.len(),
    ensures
        text::listed(present, keys[i]),
        text::listed(present, manifest),
{
    let p = |k: Seq<char>| is_lost(k, present, manifest);
    if p(keys[i]) {
        keys.lemma_filter_contains(p, i);
        let missing = keys.filter(p);
        assert(missing.contains(keys[i]));
    }
}

} // verus!
