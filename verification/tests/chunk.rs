//! Chunking of Markdown documents.

use ecphoria_core::ingest::chunk::{
    chunk_markdown, fence_of, is_fence, pack_paragraphs, split_sections, Chunk, ChunkOptions,
};

fn chunks(md: &str) -> Vec<Chunk> {
    chunk_markdown(md, &ChunkOptions::default())
        .into_iter()
        .map(|(c, _)| c)
        .collect()
}

const DOC: &str = "\
# Deployment Guide

Intro paragraph that is long enough to stand on its own as a chunk rather than being
merged upward into nothing, because the merge threshold is two hundred characters and
this preamble comfortably clears it with room to spare.

## Docker

Run the container with a volume mount so data survives a restart. This section also needs
to be long enough to survive the minimum-size merge, so here is some more prose about
mounting volumes and choosing ports for the deployment.

## Kubernetes

Use the Helm chart. The chart deploys a StatefulSet and a headless service, and this
paragraph exists to push the section past the minimum chunk size threshold.

### Production Values

Set replicas to three and enable the pod disruption budget, because a two-node Raft
cluster cannot tolerate any failure at all and that surprises people regularly.
";

#[test]
fn splits_on_headings_and_tracks_the_trail() {
    let cs = chunks(DOC);
    let trails: Vec<String> = cs.iter().map(|c| c.heading_path.join(" > ")).collect();
    assert_eq!(
        trails,
        vec![
            "Deployment Guide",
            "Deployment Guide > Docker",
            "Deployment Guide > Kubernetes",
            "Deployment Guide > Kubernetes > Production Values",
        ]
    );
    assert_eq!(cs[3].ordinal, 3);
}

#[test]
fn every_chunk_carries_its_ancestors_words() {
    // The point of the trail prefix: a deep section is findable by its parents' terms.
    let cs = chunks(DOC);
    let deep = cs.last().unwrap();
    assert!(deep.text.contains("Kubernetes"), "{}", deep.text);
    assert!(deep.text.contains("Production Values"));
    assert!(deep.text.contains("disruption budget"));
}

#[test]
fn subject_is_a_stable_address() {
    let cs = chunks(DOC);
    assert_eq!(
        cs[3].subject("docs/deployment.md", None),
        "docs/deployment.md#Deployment Guide > Kubernetes > Production Values"
    );
    // Size-split parts stay distinct.
    assert_eq!(
        cs[3].subject("docs/deployment.md", Some(1)),
        "docs/deployment.md#Deployment Guide > Kubernetes > Production Values~1"
    );
    // Preamble with no heading addresses the document itself.
    assert_eq!(
        Chunk {
            heading_path: vec![],
            text: "x".into(),
            ordinal: 0
        }
        .subject("README.md", None),
        "README.md"
    );
}

#[test]
fn editing_one_section_leaves_the_others_addressed_identically() {
    // This is what makes per-section bi-temporal history work: the subjects of untouched
    // sections must not move when a sibling changes.
    let before = chunks(DOC);
    let after = chunks(&DOC.replace("Set replicas to three", "Set replicas to five"));
    let subj =
        |cs: &[Chunk]| -> Vec<String> { cs.iter().map(|c| c.subject("d.md", None)).collect() };
    assert_eq!(subj(&before), subj(&after), "addresses must be stable");
    assert_eq!(before[0].text, after[0].text, "untouched section unchanged");
    assert_ne!(before[3].text, after[3].text, "edited section changed");
}

#[test]
fn never_splits_inside_a_code_fence() {
    let mut md = String::from("# Runbook\n\nPreamble.\n\n```bash\n");
    // A fence far larger than max_chars — it must still come back whole.
    for i in 0..400 {
        md.push_str(&format!("echo 'step {i} of the recovery procedure'\n"));
    }
    md.push_str("```\n\nTrailing note.\n");

    let cs = chunks(&md);
    let fenced: Vec<&Chunk> = cs.iter().filter(|c| c.text.contains("```")).collect();
    assert!(!fenced.is_empty());
    for c in &cs {
        let opens = c.text.matches("```").count();
        assert_eq!(opens % 2, 0, "unbalanced fence in chunk:\n{}", c.text);
    }
    // Every step survived somewhere.
    let all: String = cs.iter().map(|c| c.text.as_str()).collect();
    assert!(all.contains("step 0 of"));
    assert!(all.contains("step 399 of"));
}

#[test]
fn headings_inside_code_are_not_headings() {
    let md = "# Real\n\nSome introductory prose that is long enough to avoid being merged \
              upward into a neighbouring chunk by the minimum-size rule applied here.\n\n\
              ```python\n# not a heading\nx = 1\n```\n";
    let cs = chunks(md);
    assert_eq!(cs.len(), 1, "code comment started a new section: {cs:#?}");
    assert_eq!(cs[0].heading_path, vec!["Real".to_string()]);
}

#[test]
fn oversized_sections_split_at_paragraph_boundaries() {
    let para = "This paragraph is deliberately verbose so that several of them together \
                exceed the maximum chunk size and force the packer to emit more than one \
                chunk for a single heading.\n\n";
    let md = format!("# Big\n\n{}", para.repeat(30));
    let parts = chunk_markdown(&md, &ChunkOptions::default());
    assert!(parts.len() > 1, "expected a split, got {}", parts.len());
    // Parts are numbered so their subjects stay distinct.
    assert_eq!(parts[0].1, 0);
    assert_eq!(parts[1].1, 1);
    // No chunk ends mid-sentence: each ends at a paragraph boundary.
    for (c, _) in &parts {
        assert!(
            c.text.trim_end().ends_with("chunk for a single heading."),
            "split mid-paragraph:\n{}",
            c.text
        );
    }
}

#[test]
fn heading_only_sections_are_skipped_but_survive_in_descendant_trails() {
    // "Container" has no body of its own — it only groups sub-sections. It must not become an
    // empty chunk, and its title must still be searchable via its children.
    let md = "# Guide\n\nIntro body.\n\n## Container\n\n### Docker\n\nRun it with a volume.\n";
    let cs = chunks(md);
    let trails: Vec<String> = cs.iter().map(|c| c.heading_path.join(" > ")).collect();
    assert_eq!(trails, vec!["Guide", "Guide > Container > Docker"]);
    assert!(cs[1].text.contains("Container"), "{}", cs[1].text);
}

#[test]
fn short_sections_keep_their_own_address() {
    // Deliberately no size-based merging: a one-line section is still independently
    // addressable, so editing it supersedes only itself.
    let md = "# Main\n\nA body paragraph.\n\n## Note\n\nShort.\n";
    let cs = chunks(md);
    assert_eq!(cs.len(), 2, "{cs:#?}");
    assert_eq!(cs[1].subject("d.md", None), "d.md#Main > Note");
}

#[test]
fn preamble_before_any_heading_is_kept() {
    let md = "Some front matter prose that appears before any heading at all, long enough \
              to stand alone as its own chunk under the minimum size rule.\n\n# Later\n\n\
              Body text under the first real heading, also comfortably long enough to be \
              its own separate chunk in the output.\n";
    let cs = chunks(md);
    assert_eq!(cs.len(), 2);
    assert!(cs[0].heading_path.is_empty());
    assert!(cs[0].text.contains("front matter"));
}

#[test]
fn empty_and_whitespace_documents_produce_nothing() {
    assert!(chunks("").is_empty());
    assert!(chunks("   \n\n  \n").is_empty());
}

#[test]
fn deeper_heading_pops_back_to_the_right_ancestor() {
    let md = "# A\n\nBody of A, long enough to be its own chunk without merging upward into \
              anything else at all in this particular document.\n\n\
              ## B\n\nBody of B, also long enough to survive the minimum-size merge rule \
              that would otherwise fold it into its parent section.\n\n\
              ### C\n\nBody of C, likewise long enough to stand alone as a chunk in the \
              output of the markdown chunker under test.\n\n\
              ## D\n\nBody of D, which must be a sibling of B and not a child of C, and is \
              long enough to be its own chunk in the result.\n";
    let cs = chunks(md);
    let trails: Vec<String> = cs.iter().map(|c| c.heading_path.join(" > ")).collect();
    assert_eq!(trails, vec!["A", "A > B", "A > B > C", "A > D"]);
}

/// A blank heading has no trail of its own; its section must not share the preamble's address.
#[test]
fn a_blank_heading_does_not_collide_with_the_preamble() {
    let chunks = chunk_markdown(
        "intro text\n\n# \n\nbody under a nameless heading",
        &ChunkOptions::default(),
    );
    let subjects: Vec<String> = chunks
        .iter()
        .map(|(c, part)| c.subject("docs/x.md", Some(*part)))
        .collect();
    let unique: std::collections::HashSet<&String> = subjects.iter().collect();
    assert_eq!(unique.len(), subjects.len(), "{subjects:?}");
    // The preamble keeps the bare path, so already-imported documents do not move.
    assert_eq!(subjects[0], "docs/x.md");
}


#[test]
fn default_sizes() {
    let opts = ChunkOptions::default();
    assert_eq!(opts.target_chars, 1_500);
    assert_eq!(opts.max_chars, 3_000);
}

#[test]
fn exact_texts_and_parts_of_a_small_document() {
    let cs = chunk_markdown("pre\n# A\nx\r\n## B ##\ny\n", &ChunkOptions::default());
    let got: Vec<(String, String, usize, usize)> = cs
        .iter()
        .map(|(c, part)| (c.heading_path.join("/"), c.text.clone(), c.ordinal, *part))
        .collect();
    assert_eq!(
        got,
        vec![
            ("".to_string(), "pre".to_string(), 0, 0),
            ("A".to_string(), "A\n\nx".to_string(), 1, 0),
            ("A/B".to_string(), "A > B\n\ny".to_string(), 2, 0),
        ]
    );
}

#[test]
fn seven_hashes_and_a_missing_space_are_body_text() {
    let cs = chunks("# A\n\n####### not\n#hashtag\n");
    assert_eq!(cs.len(), 1);
    assert_eq!(cs[0].text, "A\n\n####### not\n#hashtag");
}

#[test]
fn packing_counts_characters_and_keeps_paragraphs_whole() {
    let body: Vec<char> = "éé\n\nab\n\ncd".chars().collect();
    // A paragraph of two characters takes four: its line ends, and so does the paragraph.
    assert_eq!(pack_paragraphs(&body, 8), vec!["éé\n\nab\n\n", "cd\n\n"]);
    assert_eq!(pack_paragraphs(&body, 100), vec!["éé\n\nab\n\ncd\n\n"]);
    assert_eq!(pack_paragraphs(&body, 1), vec!["éé\n\n", "ab\n\n", "cd\n\n"]);
}

#[test]
fn sizes_are_counted_in_characters() {
    let opts = ChunkOptions { target_chars: 4, max_chars: 8 };
    let cs = chunk_markdown("éé\n\nêê", &opts);
    assert_eq!(cs.len(), 1);
    assert_eq!(cs[0].0.text, "éé\n\nêê");
    let opts = ChunkOptions { target_chars: 4, max_chars: 5 };
    assert_eq!(chunk_markdown("éé\n\nêê", &opts).len(), 2);
}

#[test]
fn a_group_of_paragraphs_keeps_the_limit() {
    let body: Vec<char> = "aa\n\nbb".chars().collect();
    assert_eq!(pack_paragraphs(&body, 7), vec!["aa\n\n", "bb\n\n"]);
    assert_eq!(pack_paragraphs(&body, 8), vec!["aa\n\nbb\n\n"]);
}

#[test]
fn a_fence_is_closed_by_its_own_kind() {
    let md = "````\n```\n# x\n```\n````\n";
    let cs: Vec<char> = md.chars().collect();
    let sections = split_sections(&cs);
    assert_eq!(sections.len(), 1);
    assert!(sections[0].heading_path.is_empty());
    assert_eq!(sections[0].body.iter().collect::<String>(), md);
    // Tildes do not close backticks, and a longer fence closes a shorter one.
    let md = "```\n~~~\n# x\n`````\n# Y\n\nbody\n";
    let all = chunks(md);
    assert_eq!(all.len(), 2);
    assert_eq!(all[0].text, "```\n~~~\n# x\n`````");
    assert_eq!(all[1].heading_path, vec!["Y".to_string()]);
    // Blank lines inside a longer fence do not cut it.
    let body: Vec<char> = "````\na\n\n```\n\nb\n````\n\nc".chars().collect();
    assert_eq!(
        pack_paragraphs(&body, 1),
        vec!["````\na\n\n```\n\nb\n````\n\n", "c\n\n"]
    );
}

#[test]
fn a_fence_has_a_character_and_a_length() {
    let line = |s: &str| -> Vec<char> { s.chars().collect() };
    assert_eq!(fence_of(&line("  ````rust")), Some(('`', 4)));
    assert_eq!(fence_of(&line("~~~")), Some(('~', 3)));
    assert_eq!(fence_of(&line("``")), None);
    assert!(is_fence(&line("```")));
    assert!(!is_fence(&line("text ```")));
}

#[test]
fn an_open_fence_runs_to_the_end() {
    let cs = chunks("# A\n\n```\n# no heading\n\nmore\n");
    assert_eq!(cs.len(), 1);
    assert_eq!(cs[0].text, "A\n\n```\n# no heading\n\nmore");
}

fn subjects(md: &str, opts: &ChunkOptions) -> Vec<String> {
    chunk_markdown(md, opts)
        .iter()
        .map(|(c, p)| c.subject("docs/x.md", Some(*p)))
        .collect()
}

#[test]
fn headings_with_one_trail_are_numbered() {
    let opts = ChunkOptions::default();
    assert_eq!(
        subjects("# A\n\nx\n\n# A\n\ny\n\n# a\n\nz\n", &opts),
        vec!["docs/x.md#A", "docs/x.md#A~1", "docs/x.md#a~2"]
    );
    // A heading that looks like a numbered one gets a number of its own.
    assert_eq!(
        subjects("# A\n\nx\n\n# A\n\ny\n\n# A~1\n\nz\n", &opts),
        vec!["docs/x.md#A", "docs/x.md#A~1", "docs/x.md#A~1~1"]
    );
}

#[test]
fn subjects_are_unique_within_a_document() {
    let normal = |s: &String| -> String {
        s.split_whitespace().collect::<Vec<_>>().join(" ").to_lowercase()
    };
    let small = ChunkOptions { target_chars: 8, max_chars: 8 };
    let docs = [
        "one\n\ntwo two\n\nthree three\n\n# §1\n\nx\n\n# §1~1\n\ny\n\n# §2~2\n\nz\n",
        "# A  B\n\nx\n\n# a b\n\ny\n\n#  A\tB\n\nz\n\n# A B~1\n\nw\n",
        "# ΟΔΟΣ\n\nx\n\n# οδος\n\ny\n\n# οδοσ\n\nz\n",
        "# T\n\naaaa aaaa\n\nbbbb bbbb\n\n# T~1\n\nx\n\n# T\n\ncccc cccc\n\ndddd dddd\n",
        "## \n\nx\n\n## \n\ny\n\n#  #\n\nz\n",
    ];
    for opts in [small, ChunkOptions::default()] {
        for md in docs {
            let all = subjects(md, &opts);
            let mut seen: Vec<String> = all.iter().map(normal).collect();
            seen.sort();
            seen.dedup();
            assert_eq!(seen.len(), all.len(), "{all:?}");
        }
    }
}

#[test]
fn an_edit_changes_one_chunk() {
    let before = chunk_markdown(DOC, &ChunkOptions::default());
    let edited = DOC.replace("Use the Helm chart.", "Use the new Helm chart.");
    let after = chunk_markdown(&edited, &ChunkOptions::default());
    assert_eq!(before.len(), after.len());
    let mut changed = 0;
    for (a, b) in before.iter().zip(&after) {
        assert_eq!(a.0.subject("d", Some(a.1)), b.0.subject("d", Some(b.1)));
        if a != b {
            changed += 1;
        }
    }
    assert_eq!(changed, 1);
}

#[test]
fn no_text_is_lost() {
    let md = "intro\n# A\n```\ncode\n\ncode\n```\ntail\n## B\n\nlast line";
    let small = ChunkOptions { target_chars: 4, max_chars: 4 };
    let ink = |s: &str| -> String { s.chars().filter(|c| !c.is_whitespace()).collect() };
    let own: String = chunk_markdown(md, &small)
        .iter()
        .map(|(c, _)| {
            let trail = c.heading_path.join(" > ");
            if trail.is_empty() {
                c.text.clone()
            } else {
                c.text[trail.len() + 2..].to_string()
            }
        })
        .collect();
    let prose = "intro```code code```tail last line";
    assert_eq!(ink(&own), ink(prose));
}

#[test]
fn the_parts_of_a_section_are_addressed_apart() {
    let md = "# A\n\none\n\ntwo\n";
    let small = ChunkOptions { target_chars: 1, max_chars: 1 };
    let subjects: Vec<String> = chunk_markdown(md, &small)
        .iter()
        .map(|(c, p)| c.subject("d", Some(*p)))
        .collect();
    assert_eq!(subjects, vec!["d#A", "d#A~1"]);
}
