//! Descriptor-file recognition.
//!
//! A compose descriptor is a file whose name starts with one of the
//! recognized base tokens and ends with one of the recognized extensions.
//! Among descriptors, the canonical unqualified names are *base* files, the
//! canonical override names are *override* files, and everything else is a
//! *tagged* file whose middle segment is its variant tag.

use vstd::prelude::*;
use vstd::string::StrSliceExecFns;

use crate::strutil::{
    has_prefix, has_suffix, is_prefix_of, is_suffix_of, sort_lex, sort_strings, str_eq, views_of,
};

verus! {

/// One of the canonical unqualified descriptor names.
pub open spec fn is_base_name(f: Seq<char>) -> bool {
    ||| f == "docker-compose.yml"@
    ||| f == "docker-compose.yaml"@
    ||| f == "compose.yml"@
    ||| f == "compose.yaml"@
}

/// One of the canonical override-suffix descriptor names.
pub open spec fn is_override_name(f: Seq<char>) -> bool {
    ||| f == "docker-compose.override.yml"@
    ||| f == "docker-compose.override.yaml"@
    ||| f == "compose.override.yml"@
    ||| f == "compose.override.yaml"@
}

/// The filename matches the descriptor pattern.
pub open spec fn is_descriptor_name(f: Seq<char>) -> bool {
    (is_prefix_of("docker-compose"@, f) || is_prefix_of("compose"@, f)) && (is_suffix_of(
        ".yml"@,
        f,
    ) || is_suffix_of(".yaml"@, f))
}

/// The filename without a recognized extension.
pub open spec fn stem_of(f: Seq<char>) -> Seq<char> {
    if is_suffix_of(".yaml"@, f) {
        f.take(f.len() - ".yaml"@.len())
    } else if is_suffix_of(".yml"@, f) {
        f.take(f.len() - ".yml"@.len())
    } else {
        f
    }
}

/// The variant tag of a descriptor filename: the stem with a recognized
/// prefix stripped.
pub open spec fn variant_of(f: Seq<char>) -> Seq<char> {
    let stem = stem_of(f);
    if is_prefix_of("docker-compose."@, stem) {
        stem.skip("docker-compose."@.len() as int)
    } else if is_prefix_of("compose."@, stem) {
        stem.skip("compose."@.len() as int)
    } else {
        stem
    }
}

pub fn is_descriptor_file(f: &str) -> (r: bool)
    ensures
        r == is_descriptor_name(f@),
{
    (has_prefix(f, "docker-compose") || has_prefix(f, "compose")) && (has_suffix(f, ".yml")
        || has_suffix(f, ".yaml"))
}

pub fn is_base_file(f: &str) -> (r: bool)
    ensures
        r == is_base_name(f@),
{
    str_eq(f, "docker-compose.yml") || str_eq(f, "docker-compose.yaml") || str_eq(
        f,
        "compose.yml",
    ) || str_eq(f, "compose.yaml")
}

pub fn is_override_file(f: &str) -> (r: bool)
    ensures
        r == is_override_name(f@),
{
    str_eq(f, "docker-compose.override.yml") || str_eq(f, "docker-compose.override.yaml")
        || str_eq(f, "compose.override.yml") || str_eq(f, "compose.override.yaml")
}

/// Extracts the variant tag from a descriptor filename: the extension and
/// the recognized prefix are stripped, and what remains is the tag.
pub fn extract_variant(filename: &str) -> (r: String)
    ensures
        r@ == variant_of(filename@),
{
    let flen = filename.unicode_len();
    let stem_end: usize = if has_suffix(filename, ".yaml") {
        flen - ".yaml".unicode_len()
    } else if has_suffix(filename, ".yml") {
        flen - ".yml".unicode_len()
    } else {
        flen
    };
    let stem = filename.substring_char(0, stem_end);
    proof {
        assert(stem@ =~= stem_of(filename@));
    }
    let tagged = if has_prefix(stem, "docker-compose.") {
        stem.substring_char("docker-compose.".unicode_len(), stem.unicode_len())
    } else if has_prefix(stem, "compose.") {
        stem.substring_char("compose.".unicode_len(), stem.unicode_len())
    } else {
        stem
    };
    proof {
        assert(tagged@ =~= variant_of(filename@));
    }
    tagged.to_owned()
}

/// The subsequence of descriptor filenames, in their original order.
pub open spec fn descriptors_of(s: Seq<Seq<char>>) -> Seq<Seq<char>>
    decreases s.len(),
{
    if s.len() == 0 {
        Seq::empty()
    } else {
        descriptors_of(s.drop_last()) + if is_descriptor_name(s.last()) {
            seq![s.last()]
        } else {
            Seq::empty()
        }
    }
}

/// From the plain file names found in one directory, the descriptor files,
/// sorted lexicographically so grouping is independent of enumeration order.
pub fn get_compose_files(file_names: &Vec<String>) -> (r: Vec<String>)
    ensures
        views_of(r@) == sort_lex(descriptors_of(views_of(file_names@))),
        crate::strutil::lex_sorted(views_of(r@)),
        views_of(r@).to_multiset() == descriptors_of(views_of(file_names@)).to_multiset(),
{
    proof {
        crate::strutil::lemma_sort_lex_sorted(descriptors_of(views_of(file_names@)));
        crate::strutil::lemma_sort_lex_multiset(descriptors_of(views_of(file_names@)));
    }
    let ghost all = views_of(file_names@);
    let mut found: Vec<String> = Vec::new();
    let mut i: usize = 0;
    while i < file_names.len()
        invariant
            i <= file_names@.len(),
            all == views_of(file_names@),
            views_of(found@) == descriptors_of(all.take(i as int)),
        decreases file_names@.len() - i,
    {
        let ghost pre = found@;
        if is_descriptor_file(file_names[i].as_str()) {
            found.push(file_names[i].clone());
            proof {
                assert(views_of(pre.push(file_names@[i as int])) =~= views_of(pre).push(
                    all[i as int],
                ));
            }
        }
        proof {
            assert(all.take(i + 1 as int).drop_last() =~= all.take(i as int));
            assert(all.take(i + 1 as int).last() == all[i as int]);
            if is_descriptor_name(all[i as int]) {
                assert(views_of(found@) =~= descriptors_of(all.take(i as int)) + seq![
                    all[i as int],
                ]);
            }
        }
        i += 1;
    }
    proof {
        assert(all.take(all.len() as int) =~= all);
    }
    sort_strings(&found)
}

} // verus!
