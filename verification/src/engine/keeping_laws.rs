//! What holds of backups, of attachments, and of what is chosen when the engine starts.

use vstd::prelude::*;

use crate::engine::attachments::{image, storage_key};
use crate::engine::backup::{
    backup_dir, contributions, first_mismatch, hex, is_lost, key_in, keys_where, landed, lost,
    outdated, sending_order, total, verified, ArtifactView, FileView,
};
use crate::engine::startup::{
    completion_choice, embedding_choice, persistent, rerank_choice, CompletionChoice,
    EmbeddingChoice, RerankChoice,
};
use crate::error::ErrorView;
use crate::ids::uuid_notation;
use crate::json::hex_digit;

verus! {

// ── Verifying a backup ───────────────────────────────────────────────────────────────

proof fn lemma_first_mismatch(artifacts: Seq<ArtifactView>, actual: Seq<Seq<char>>)
    ensures
        match first_mismatch(artifacts, actual) {
            Some(i) => {
                &&& 0 <= i < artifacts.len()
                &&& artifacts[i].sha256 != actual[i]
                &&& forall|k: int| 0 <= k < i ==> (#[trigger] artifacts[k]).sha256 == actual[k]
            },
            None => forall|k: int|
                0 <= k < artifacts.len() ==> (#[trigger] artifacts[k]).sha256 == actual[k],
        },
    decreases artifacts.len(),
{
    if artifacts.len() > 0 {
        let rest = artifacts.drop_last();
        lemma_first_mismatch(rest, actual);
        assert forall|k: int| 0 <= k < rest.len() implies artifacts[k] == #[trigger] rest[k] by {}
        assert forall|k: int| 0 <= k < rest.len() implies rest[k] == #[trigger] artifacts[k] by {}
    }
}

/// A backup is trusted exactly where it is of a known layout and every part has the digest that the
/// manifest gives it; where one has not, the first such part is named, with both digests.
pub proof fn law_changed_backups_are_refused(
    version: u32,
    artifacts: Seq<ArtifactView>,
    actual: Seq<Seq<char>>,
    i: int,
)
    ensures
        verified(version, artifacts, actual) is Ok <==> version <= 1 && forall|k: int|
            0 <= k < artifacts.len() ==> (#[trigger] artifacts[k]).sha256 == actual[k],
        version <= 1 && 0 <= i < artifacts.len() && artifacts[i].sha256 != actual[i] && (forall|
            k: int,
        |
            0 <= k < i ==> (#[trigger] artifacts[k]).sha256 == actual[k]) ==> verified(
            version,
            artifacts,
            actual,
        ) == Err::<(), ErrorView>(
            ErrorView::Storage(
                "backup integrity check failed for '"@ + artifacts[i].path + "': manifest "@
                    + artifacts[i].sha256 + " != actual "@ + actual[i],
            ),
        ),
{
    lemma_first_mismatch(artifacts, actual);
    if version <= 1 && 0 <= i < artifacts.len() && artifacts[i].sha256 != actual[i] && (forall|
        k: int,
    |
        0 <= k < i ==> (#[trigger] artifacts[k]).sha256 == actual[k]) {
        let f = first_mismatch(artifacts, actual);
        assert(f is Some) by {
            if f is None {
                assert(artifacts[i].sha256 == actual[i]);
            }
        }
        if f->0 < i {
            assert(artifacts[f->0].sha256 == actual[f->0]);
        }
        if i < f->0 {
            assert(artifacts[i].sha256 == actual[i]);
        }
    }
}

/// Two digits stand for each byte, and different bytes are written differently.
pub proof fn law_digests_are_told_apart(a: Seq<u8>, b: Seq<u8>)
    ensures
        hex(a).len() == 2 * a.len(),
        hex(a) == hex(b) ==> a == b,
    decreases a.len() + b.len(),
{
    lemma_hex_len(a);
    lemma_hex_len(b);
    if hex(a) == hex(b) {
        if a.len() == 0 {
            assert(b.len() == 0);
            assert(a =~= b);
        } else {
            let p = a.drop_last();
            let q = b.drop_last();
            let n = hex(a).len() as int;
            lemma_hex_len(p);
            lemma_hex_len(q);
            assert(hex(a)[n - 2] == hex_digit(a.last() as int / 16));
            assert(hex(b)[n - 2] == hex_digit(b.last() as int / 16));
            assert(hex(a)[n - 1] == hex_digit(a.last() as int % 16));
            assert(hex(b)[n - 1] == hex_digit(b.last() as int % 16));
            lemma_hex_digits(a.last() as int / 16, b.last() as int / 16);
            lemma_hex_digits(a.last() as int % 16, b.last() as int % 16);
            assert(a.last() == b.last());
            assert(hex(p) =~= hex(a).take(n - 2));
            assert(hex(q) =~= hex(b).take(n - 2));
            law_digests_are_told_apart(p, q);
            assert(a =~= p.push(a.last()));
            assert(b =~= q.push(b.last()));
        }
    }
}

proof fn lemma_hex_len(a: Seq<u8>)
    ensures
        hex(a).len() == 2 * a.len(),
    decreases a.len(),
{
    if a.len() > 0 {
        lemma_hex_len(a.drop_last());
    }
}

proof fn lemma_hex_digits(a: int, b: int)
    requires
        0 <= a < 16,
        0 <= b < 16,
        hex_digit(a) == hex_digit(b),
    ensures
        a == b,
{
}

/// A file counts toward the digest of its tree by its path and by its bytes, with a zero between
/// them.
pub proof fn law_files_count_by_path_and_bytes(files: Seq<FileView>, f: FileView)
    ensures
        contributions(files.push(f)) == contributions(files) + vstd::utf8::encode_utf8(f.path)
            + seq![0u8] + f.bytes,
        contributions(seq![]) == Seq::<u8>::empty(),
{
    assert(files.push(f).drop_last() =~= files);
    assert(contributions(files.push(f)) =~= contributions(files) + vstd::utf8::encode_utf8(f.path)
        + seq![0u8] + f.bytes);
}

// ── Sending a backup ─────────────────────────────────────────────────────────────────

proof fn lemma_keys_where(
    dir: Seq<char>,
    paths: Seq<Seq<char>>,
    name: Seq<char>,
    named: bool,
    key: Seq<char>,
)
    ensures
        keys_where(dir, paths, name, named).contains(key) <==> exists|i: int|
            0 <= i < paths.len() && (#[trigger] paths[i] == name) == named && key == dir + paths[i],
        keys_where(dir, paths, name, true).len() + keys_where(dir, paths, name, false).len()
            == paths.len(),
    decreases paths.len(),
{
    if paths.len() > 0 {
        let rest = paths.drop_last();
        let last = paths.last();
        lemma_keys_where(dir, rest, name, named, key);
        let before = keys_where(dir, rest, name, named);
        let after = keys_where(dir, paths, name, named);
        assert(paths[paths.len() - 1] == last);
        if before.contains(key) {
            let k = choose|k: int| 0 <= k < before.len() && before[k] == key;
            assert(after[k] == key);
            let i = choose|i: int|
                0 <= i < rest.len() && (#[trigger] rest[i] == name) == named && key == dir
                    + rest[i];
            assert(paths[i] == rest[i]);
        }
        if (last == name) == named && key == dir + last {
            assert(after[before.len() as int] == key);
        }
        if after.contains(key) && !before.contains(key) {
            let k = choose|k: int| 0 <= k < after.len() && after[k] == key;
            assert(k == before.len() || before[k] == key);
            assert(paths[paths.len() - 1] == last);
        }
        assert forall|i: int|
            0 <= i < paths.len() && (#[trigger] paths[i] == name) == named && key == dir
                + paths[i] implies after.contains(key) by {
            if i < rest.len() {
                assert(rest[i] == paths[i]);
            }
        }
    }
}

/// Every file of a backup is sent, once, into its directory, and nothing else is.
pub proof fn law_every_file_is_sent(
    dir: Seq<char>,
    manifest: Seq<char>,
    paths: Seq<Seq<char>>,
    key: Seq<char>,
)
    ensures
        sending_order(dir, manifest, paths).len() == paths.len(),
        sending_order(dir, manifest, paths).contains(key) <==> exists|i: int|
            0 <= i < paths.len() && key == dir + #[trigger] paths[i],
{
    let a = keys_where(dir, paths, manifest, false);
    let b = keys_where(dir, paths, manifest, true);
    let all = sending_order(dir, manifest, paths);
    lemma_keys_where(dir, paths, manifest, false, key);
    lemma_keys_where(dir, paths, manifest, true, key);
    if a.contains(key) {
        let k = choose|k: int| 0 <= k < a.len() && a[k] == key;
        assert(all[k] == key);
    }
    if b.contains(key) {
        let k = choose|k: int| 0 <= k < b.len() && b[k] == key;
        assert(all[a.len() + k] == key);
    }
    if all.contains(key) {
        let k = choose|k: int| 0 <= k < all.len() && all[k] == key;
        if k < a.len() {
            assert(a[k] == key);
        } else {
            assert(b[k - a.len()] == key);
        }
    }
    assert forall|i: int| 0 <= i < paths.len() && key == dir + #[trigger] paths[i] implies a.contains(
        key,
    ) || b.contains(key) by {
        assert((paths[i] == manifest) == true || (paths[i] == manifest) == false);
    }
}

/// A backup is complete exactly where every file that was sent is in storage, and so is the
/// manifest; what is missing is named, file by file.
pub proof fn law_missing_files_are_named(
    keys: Seq<Seq<char>>,
    present: Seq<Seq<char>>,
    manifest: Seq<char>,
    key: Seq<char>,
)
    ensures
        landed(keys, present, manifest) is Ok <==> present.contains(manifest) && forall|i: int|
            0 <= i < keys.len() ==> present.contains(#[trigger] keys[i]),
        lost(keys, present, manifest).contains(key) <==> keys.contains(key) && key != manifest
            && !present.contains(key),
{
    let p = |k: Seq<char>| is_lost(k, present, manifest);
    let gone = keys.filter(p);
    if gone.contains(key) {
        let k = choose|k: int| 0 <= k < gone.len() && gone[k] == key;
        keys.lemma_filter_pred(p, k);
        keys.lemma_filter_contains_rev(p, key);
    }
    if keys.contains(key) && p(key) {
        let k = choose|k: int| 0 <= k < keys.len() && keys[k] == key;
        keys.lemma_filter_contains(p, k);
    }
    if landed(keys, present, manifest) is Ok {
        assert forall|i: int| 0 <= i < keys.len() implies present.contains(#[trigger] keys[i]) by {
            crate::engine::backup::law_complete_backups_are_whole(keys, present, manifest, i);
        }
    }
    if present.contains(manifest) && forall|i: int|
        0 <= i < keys.len() ==> present.contains(#[trigger] keys[i]) {
        if gone.len() > 0 {
            let x = gone[0];
            keys.lemma_filter_pred(p, 0);
            keys.lemma_filter_contains_rev(p, x);
            let k = choose|k: int| 0 <= k < keys.len() && keys[k] == x;
            assert(present.contains(keys[k]));
        }
    }
}

/// The size of a backup is the sum of the sizes of its files.
pub proof fn law_sizes_add_up(sizes: Seq<u64>, size: u64)
    ensures
        total(seq![]) == 0,
        total(sizes.push(size)) == total(sizes) + size,
{
    assert(sizes.push(size).drop_last() =~= sizes);
}

/// Where there is no limit, or fewer backups than it allows, none goes.
pub proof fn law_backups_within_the_limit_stay(names: Seq<Seq<char>>, max: nat)
    ensures
        max == 0 || names.len() <= max ==> outdated(names, max).len() == 0,
{
}

/// A file of a backup is kept under the prefix, in the directory of its backup.
pub proof fn law_backups_have_a_directory_each(
    prefix: Seq<char>,
    timestamp: Seq<char>,
    path: Seq<char>,
)
    ensures
        key_in(backup_dir(prefix, timestamp), path) == prefix + timestamp + "/"@ + path,
{
}

// ── Attachments ──────────────────────────────────────────────────────────────────────

/// Tenants keep their files apart: one id is kept in two places where two tenants have it.
pub proof fn law_attachments_are_kept_apart(a: Seq<char>, b: Seq<char>, id: u128)
    ensures
        storage_key(a, id) == "attachments/"@ + a + "/"@ + uuid_notation(id),
        a != b ==> storage_key(a, id) != storage_key(b, id),
{
    let head = "attachments/"@;
    let tail = "/"@ + uuid_notation(id);
    if storage_key(a, id) == storage_key(b, id) {
        let n = head.len() as int;
        assert(storage_key(a, id).len() == n + a.len() + tail.len());
        assert(storage_key(b, id).len() == n + b.len() + tail.len());
        assert(storage_key(a, id).subrange(n, n + a.len()) =~= a);
        assert(storage_key(b, id).subrange(n, n + b.len()) =~= b);
    }
}

/// An image is what says so first.
pub proof fn law_images_say_so(kind: Seq<char>)
    ensures
        image("image/"@ + kind),
        !image(seq![]),
{
    reveal_strlit("image/");
    assert(("image/"@ + kind).take(6) =~= "image/"@);
}

// ── Choices ──────────────────────────────────────────────────────────────────────────

proof fn lemma_provider_names()
    ensures
        "ollama"@ != "openai"@,
        "openai"@ != "anthropic"@,
        "ollama"@ != "anthropic"@,
        "openai"@ != "none"@,
        "openai"@ != "local"@,
        "openai"@ != "fastembed"@,
        "openai"@ != ""@,
        "openai"@ != "openai_compatible"@,
        "openai"@ != "openai-compatible"@,
        "llm"@ != "none"@,
        "llm"@ != "cross_encoder"@,
        "none"@ != "cross_encoder"@,
        "none"@ != "ollama"@,
        "none"@ != "openai_compatible"@,
        "none"@ != "openai-compatible"@,
        "none"@ != "local"@,
        "none"@ != "fastembed"@,
{
    reveal_strlit("ollama");
    reveal_strlit("openai");
    reveal_strlit("anthropic");
    reveal_strlit("none");
    reveal_strlit("local");
    reveal_strlit("fastembed");
    reveal_strlit("");
    reveal_strlit("openai_compatible");
    reveal_strlit("openai-compatible");
    reveal_strlit("llm");
    reveal_strlit("cross_encoder");
    assert("ollama"@[1] == 'l' && "openai"@[1] == 'p' && "openai"@.len() == 6 && "none"@.len() == 4
        && "llm"@.len() == 3 && "cross_encoder"@.len() == 13 && "anthropic"@.len() == 9
        && "local"@.len() == 5 && "fastembed"@.len() == 9 && "openai_compatible"@.len() == 17
        && "openai-compatible"@.len() == 17 && ""@.len() == 0);
}

/// A provider that asks for a key is not used without one, and one that is switched off is off; a
/// server of one's own needs none.
pub proof fn law_providers_need_their_keys(
    key: Seq<char>,
    other_key: Seq<char>,
    command: Seq<char>,
)
    ensures
        embedding_choice("openai"@, key) == EmbeddingChoice::OpenAi <==> key.len() > 0,
        embedding_choice("ollama"@, key) == EmbeddingChoice::Ollama,
        embedding_choice("openai_compatible"@, key) == EmbeddingChoice::OpenAi,
        embedding_choice("none"@, key) == EmbeddingChoice::Off,
        completion_choice("ollama"@, command, key, other_key) == CompletionChoice::Ollama,
        completion_choice("openai"@, command, key, other_key) == CompletionChoice::OpenAi
            <==> key.len() > 0,
        completion_choice("anthropic"@, command, key, other_key) == CompletionChoice::Anthropic
            <==> other_key.len() > 0,
{
    lemma_provider_names();
    reveal_strlit("openai_compatible");
    reveal_strlit("ollama");
    assert("openai_compatible"@.len() == 17 && "ollama"@.len() == 6);
}

/// A second look by a model is taken by the model that completes texts, and is not to be had where
/// there is none.
pub proof fn law_second_looks_use_the_model(
    backend: Seq<char>,
    command: Seq<char>,
    openai_key: Seq<char>,
    anthropic_key: Seq<char>,
)
    ensures
        ({
            let model = completion_choice(backend, command, openai_key, anthropic_key);
            let choice = rerank_choice("llm"@, backend, command, openai_key, anthropic_key);
            &&& model == CompletionChoice::Off ==> choice == RerankChoice::Unavailable
            &&& model != CompletionChoice::Off ==> choice == RerankChoice::Model(model)
            &&& rerank_choice("cross_encoder"@, backend, command, openai_key, anthropic_key)
                == RerankChoice::CrossEncoder
            &&& rerank_choice("none"@, backend, command, openai_key, anthropic_key)
                == RerankChoice::Off
        }),
{
    lemma_provider_names();
}

/// An index is kept on disk exactly where a place is named for it that is not memory.
pub proof fn law_indexes_are_kept_where_they_are_told(dir: Seq<char>)
    ensures
        persistent(dir) <==> dir.len() > 0 && dir != ":memory:"@,
{
}

} // verus!
