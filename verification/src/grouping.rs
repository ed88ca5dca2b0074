//! Variant grouping: partitioning the sorted descriptor files of one
//! directory into service units.
//!
//! - A single descriptor file yields one unqualified unit naming that file.
//! - When a base file is present, one unqualified unit with an *empty* file
//!   list is emitted, deferring to the external tool's own base+override
//!   merge; base and override files are never named explicitly together.
//! - Every tagged file becomes its own unit carrying its extracted tag.
//! - Override files with no base to merge against are promoted to explicit
//!   units of their own.

use vstd::prelude::*;
use vstd::string::StrSliceExecFns;

use crate::matching::{
    extract_variant, is_base_file, is_base_name, is_override_file, is_override_name, variant_of,
};
use crate::service::{models_of, Service, ServiceModel};
use crate::strutil::views_of;

verus! {

/// Is some file in `files` a base descriptor?
pub open spec fn has_base(files: Seq<Seq<char>>) -> bool {
    exists|i: int| 0 <= i < files.len() && is_base_name(files[i])
}

/// The tagged files of `files`: neither base nor override, in order.
pub open spec fn tagged_of(files: Seq<Seq<char>>) -> Seq<Seq<char>>
    decreases files.len(),
{
    if files.len() == 0 {
        Seq::empty()
    } else {
        tagged_of(files.drop_last()) + if !is_base_name(files.last()) && !is_override_name(
            files.last(),
        ) {
            seq![files.last()]
        } else {
            Seq::empty()
        }
    }
}

/// A unit of one directory.
pub open spec fn unit_model(
    name: Seq<char>,
    path: Seq<char>,
    files: Seq<Seq<char>>,
    variant: Option<Seq<char>>,
) -> ServiceModel {
    ServiceModel { name: name, path: path, compose_files: files, variant: variant }
}

/// Each file becomes its own unit, tagged with its extracted variant.
pub open spec fn tagged_units(files: Seq<Seq<char>>, name: Seq<char>, path: Seq<char>) -> Seq<
    ServiceModel,
> {
    files.map_values(
        |f: Seq<char>| unit_model(name, path, seq![f], Option::Some(variant_of(f))),
    )
}

/// The partition of one directory's descriptor files into units.
pub open spec fn group_spec(files: Seq<Seq<char>>, name: Seq<char>, path: Seq<char>) -> Seq<
    ServiceModel,
> {
    if files.len() == 1 {
        seq![unit_model(name, path, files, Option::None)]
    } else {
        let base_part = if has_base(files) {
            seq![unit_model(name, path, Seq::empty(), Option::None)]
        } else {
            Seq::empty()
        };
        let tagged_part = tagged_units(tagged_of(files), name, path);
        let promoted = if !has_base(files) && tagged_of(files).len() == 0 {
            tagged_units(files, name, path)
        } else {
            Seq::empty()
        };
        base_part + tagged_part + promoted
    }
}

/// The files whose extracted tag becomes a unit's variant: the tagged
/// files ordinarily, or every file when only overrides with no base are
/// present; none when a single file or only a base unit is emitted.
pub open spec fn tag_sources(files: Seq<Seq<char>>) -> Seq<Seq<char>> {
    if files.len() == 1 {
        Seq::empty()
    } else if tagged_of(files).len() > 0 {
        tagged_of(files)
    } else if !has_base(files) {
        files
    } else {
        Seq::empty()
    }
}

/// Every unit a directory yields carries that directory's name.
pub proof fn lemma_group_units_named(files: Seq<Seq<char>>, name: Seq<char>, path: Seq<char>)
    ensures
        forall|k: int|
            0 <= k < group_spec(files, name, path).len() ==> group_spec(files, name, path)[k].name
                == name,
{
    let g = group_spec(files, name, path);
    if files.len() == 1 {
    } else {
        let base_part: Seq<ServiceModel> = if has_base(files) {
            seq![unit_model(name, path, Seq::empty(), Option::None)]
        } else {
            Seq::empty()
        };
        let tp = tagged_units(tagged_of(files), name, path);
        let promoted: Seq<ServiceModel> = if !has_base(files) && tagged_of(files).len() == 0 {
            tagged_units(files, name, path)
        } else {
            Seq::empty()
        };
        let bl = base_part.len() as int;
        assert forall|k: int| 0 <= k < g.len() implies g[k].name == name by {
            if k < bl {
                assert(g[k] == base_part[k]);
            } else if k < bl + tp.len() {
                assert(g[k] == tp[k - bl]);
            } else {
                assert(g[k] == promoted[k - bl - tp.len()]);
            }
        }
    }
}

/// Within one directory the grouping never doubles an address: every unit
/// carries the directory's name, and — provided the tags extracted from
/// the emitted files are pairwise distinct — no two units share a
/// `(name, variant)` pair.
pub proof fn lemma_group_units_distinct(files: Seq<Seq<char>>, name: Seq<char>, path: Seq<char>)
    requires
        forall|i: int, j: int|
            0 <= i < j < tag_sources(files).len() ==> variant_of(tag_sources(files)[i])
                != variant_of(tag_sources(files)[j]),
    ensures
        forall|k: int|
            0 <= k < group_spec(files, name, path).len() ==> group_spec(files, name, path)[k].name
                == name,
        forall|i: int, j: int|
            0 <= i < j < group_spec(files, name, path).len() ==> !(group_spec(
                files,
                name,
                path,
            )[i].name == group_spec(files, name, path)[j].name && group_spec(
                files,
                name,
                path,
            )[i].variant == group_spec(files, name, path)[j].variant),
{
    let g = group_spec(files, name, path);
    if files.len() == 1 {
    } else {
        let base_part: Seq<ServiceModel> = if has_base(files) {
            seq![unit_model(name, path, Seq::empty(), Option::None)]
        } else {
            Seq::empty()
        };
        let tp = tagged_units(tagged_of(files), name, path);
        let promoted: Seq<ServiceModel> = if !has_base(files) && tagged_of(files).len() == 0 {
            tagged_units(files, name, path)
        } else {
            Seq::empty()
        };
        let bl = base_part.len() as int;
        assert forall|k: int| 0 <= k < g.len() implies g[k].name == name by {
            if k < bl {
                assert(g[k] == base_part[k]);
            } else if k < bl + tp.len() {
                assert(g[k] == tp[k - bl]);
            } else {
                assert(g[k] == promoted[k - bl - tp.len()]);
            }
        }
        assert forall|i: int, j: int|
            0 <= i < j < g.len() implies !(g[i].name == g[j].name && g[i].variant
            == g[j].variant) by {
            if tagged_of(files).len() > 0 {
                assert(promoted.len() == 0);
                if i < bl {
                    assert(g[i] == base_part[i]);
                    assert(g[j] == tp[j - bl]);
                    assert(g[i].variant is None && g[j].variant is Some);
                } else {
                    assert(g[i] == tp[i - bl] && g[j] == tp[j - bl]);
                    assert(g[i].variant == Option::Some(variant_of(tagged_of(files)[i - bl])));
                    assert(g[j].variant == Option::Some(variant_of(tagged_of(files)[j - bl])));
                    assert(tag_sources(files) == tagged_of(files));
                }
            } else if has_base(files) {
                assert(g.len() == 1);
            } else {
                assert(bl == 0 && tp.len() == 0);
                assert(g[i] == promoted[i] && g[j] == promoted[j]);
                assert(g[i].variant == Option::Some(variant_of(files[i])));
                assert(g[j].variant == Option::Some(variant_of(files[j])));
                assert(tag_sources(files) == files);
            }
        }
    }
}

/// Grouping never silently drops a file: a single file is named by its
/// unit, and every file whose tag becomes a variant is named by exactly
/// that variant's unit. (Base and override files beside a base are
/// deliberately left unnamed: the emitted empty list defers to the
/// external tool's own merge of exactly those files.)
pub proof fn lemma_group_drops_no_file(files: Seq<Seq<char>>, name: Seq<char>, path: Seq<char>)
    ensures
        files.len() == 1 ==> group_spec(files, name, path)[0].compose_files == files,
        forall|i: int| #![trigger tag_sources(files)[i]]
            0 <= i < tag_sources(files).len() ==> exists|k: int|
                0 <= k < group_spec(files, name, path).len() && group_spec(
                    files,
                    name,
                    path,
                )[k].compose_files == seq![tag_sources(files)[i]] && group_spec(
                    files,
                    name,
                    path,
                )[k].variant == Option::Some(variant_of(tag_sources(files)[i])),
{
    let g = group_spec(files, name, path);
    if files.len() == 1 {
    } else {
        let bl: int = if has_base(files) {
            1
        } else {
            0
        };
        let tp = tagged_units(tagged_of(files), name, path);
        assert forall|i: int| #![trigger tag_sources(files)[i]]
            0 <= i < tag_sources(files).len() implies exists|k: int|
            0 <= k < g.len() && g[k].compose_files == seq![tag_sources(files)[i]]
                && g[k].variant == Option::Some(variant_of(tag_sources(files)[i])) by {
            if tagged_of(files).len() > 0 {
                assert(g[bl + i] == tp[i]);
                assert(tp[i].compose_files == seq![tagged_of(files)[i]]);
            } else {
                assert(bl == 0 && tp.len() == 0);
                assert(g[i] == tagged_units(files, name, path)[i]);
            }
        }
    }
}

/// Groups the descriptor files found in one directory into `Service`
/// entries, after the rules above.
pub fn group_compose_files(files: &Vec<String>, dir_name: &str, path: &str) -> (r: Vec<Service>)
    ensures
        models_of(r@) == group_spec(views_of(files@), dir_name@, path@),
{
    let ghost fvs = views_of(files@);
    let ghost gname = dir_name@;
    let ghost gpath = path@;

    if files.len() == 1 {
        let mut cf: Vec<String> = Vec::new();
        cf.push(files[0].clone());
        proof {
            assert(views_of(cf@) =~= fvs);
        }
        let mut r: Vec<Service> = Vec::new();
        r.push(
            Service {
                name: dir_name.to_owned(),
                path: path.to_owned(),
                compose_files: cf,
                variant: Option::None,
            },
        );
        proof {
            assert(r@[0]@ == unit_model(gname, gpath, fvs, Option::None));
            assert(models_of(r@) =~= group_spec(fvs, gname, gpath));
        }
        return r;
    }

    let mut hb = false;
    let mut i: usize = 0;
    while i < files.len()
        invariant
            i <= fvs.len(),
            fvs == views_of(files@),
            files@.len() == fvs.len(),
            hb ==> has_base(fvs),
            !hb ==> forall|k: int| 0 <= k < i ==> !is_base_name(fvs[k]),
        decreases fvs.len() - i,
    {
        if is_base_file(files[i].as_str()) {
            hb = true;
            proof {
                assert(fvs[i as int] == files@[i as int]@);
                assert(has_base(fvs));
            }
        }
        i += 1;
    }
    proof {
        if !hb && has_base(fvs) {
            let w = choose|w: int| 0 <= w < fvs.len() && is_base_name(fvs[w]);
            assert(!is_base_name(fvs[w]));
        }
        assert(hb == has_base(fvs));
    }

    let mut tagged: Vec<String> = Vec::new();
    let mut i: usize = 0;
    while i < files.len()
        invariant
            i <= fvs.len(),
            fvs == views_of(files@),
            files@.len() == fvs.len(),
            views_of(tagged@) == tagged_of(fvs.take(i as int)),
        decreases fvs.len() - i,
    {
        let ghost pre = tagged@;
        if !is_base_file(files[i].as_str()) && !is_override_file(files[i].as_str()) {
            tagged.push(files[i].clone());
            proof {
                assert(views_of(pre.push(files@[i as int])) =~= views_of(pre).push(
                    fvs[i as int],
                ));
            }
        }
        proof {
            assert(fvs.take(i + 1 as int).drop_last() =~= fvs.take(i as int));
            assert(fvs.take(i + 1 as int).last() == fvs[i as int]);
            if !is_base_name(fvs[i as int]) && !is_override_name(fvs[i as int]) {
                assert(views_of(tagged@) =~= tagged_of(fvs.take(i as int)) + seq![
                    fvs[i as int],
                ]);
            }
        }
        i += 1;
    }
    proof {
        assert(fvs.take(fvs.len() as int) =~= fvs);
    }

    let ghost base_part: Seq<ServiceModel> = if has_base(fvs) {
        seq![unit_model(gname, gpath, Seq::empty(), Option::None)]
    } else {
        Seq::empty()
    };

    let mut r: Vec<Service> = Vec::new();
    if hb {
        let s = Service {
            name: dir_name.to_owned(),
            path: path.to_owned(),
            compose_files: Vec::new(),
            variant: Option::None,
        };
        proof {
            assert(s@.compose_files =~= Seq::<Seq<char>>::empty());
            assert(s@ == unit_model(gname, gpath, Seq::empty(), Option::None));
        }
        r.push(s);
    }
    proof {
        assert(models_of(r@) =~= base_part);
    }

    let ghost tvs = views_of(tagged@);
    let mut i: usize = 0;
    while i < tagged.len()
        invariant
            i <= tvs.len(),
            tvs == views_of(tagged@),
            tagged@.len() == tvs.len(),
            gname == dir_name@,
            gpath == path@,
            models_of(r@) == base_part + tagged_units(tvs.take(i as int), gname, gpath),
        decreases tvs.len() - i,
    {
        let ghost pre = r@;
        let mut cf: Vec<String> = Vec::new();
        cf.push(tagged[i].clone());
        let variant = extract_variant(tagged[i].as_str());
        let s = Service {
            name: dir_name.to_owned(),
            path: path.to_owned(),
            compose_files: cf,
            variant: Option::Some(variant),
        };
        let ghost sm = s@;
        proof {
            assert(tvs[i as int] == tagged@[i as int]@);
            assert(sm.compose_files =~= seq![tvs[i as int]]);
            assert(sm.name == gname);
            assert(sm.path == gpath);
            assert(sm.variant == Option::Some(variant_of(tvs[i as int])));
            assert(sm == unit_model(
                gname,
                gpath,
                seq![tvs[i as int]],
                Option::Some(variant_of(tvs[i as int])),
            ));
        }
        r.push(s);
        proof {
            assert(models_of(r@) =~= models_of(pre).push(sm));
            assert(tagged_units(tvs.take(i + 1 as int), gname, gpath) =~= tagged_units(
                tvs.take(i as int),
                gname,
                gpath,
            ).push(sm));
            assert(models_of(r@) =~= base_part + tagged_units(tvs.take(i + 1 as int), gname, gpath));
        }
        i += 1;
    }
    proof {
        assert(tvs.take(tvs.len() as int) =~= tvs);
    }

    if !hb && tagged.len() == 0 {
        let mut i: usize = 0;
        while i < files.len()
            invariant
                i <= fvs.len(),
                fvs == views_of(files@),
                files@.len() == fvs.len(),
                gname == dir_name@,
                gpath == path@,
                models_of(r@) == tagged_units(fvs.take(i as int), gname, gpath),
            decreases fvs.len() - i,
        {
            let ghost pre = r@;
            let mut cf: Vec<String> = Vec::new();
            cf.push(files[i].clone());
            let variant = extract_variant(files[i].as_str());
            let s = Service {
                name: dir_name.to_owned(),
                path: path.to_owned(),
                compose_files: cf,
                variant: Option::Some(variant),
            };
            let ghost sm = s@;
            proof {
                assert(fvs[i as int] == files@[i as int]@);
                assert(sm.compose_files =~= seq![fvs[i as int]]);
                assert(sm.name == gname);
                assert(sm.path == gpath);
                assert(sm.variant == Option::Some(variant_of(fvs[i as int])));
                assert(sm == unit_model(
                    gname,
                    gpath,
                    seq![fvs[i as int]],
                    Option::Some(variant_of(fvs[i as int])),
                ));
            }
            r.push(s);
            proof {
                assert(models_of(r@) =~= models_of(pre).push(sm));
                assert(tagged_units(fvs.take(i + 1 as int), gname, gpath) =~= tagged_units(
                    fvs.take(i as int),
                    gname,
                    gpath,
                ).push(sm));
                assert(models_of(r@) =~= tagged_units(fvs.take(i + 1 as int), gname, gpath));
            }
            i += 1;
        }
        proof {
            assert(fvs.take(fvs.len() as int) =~= fvs);
            assert(models_of(r@) =~= group_spec(fvs, gname, gpath));
        }
    } else {
        proof {
            assert(models_of(r@) =~= group_spec(fvs, gname, gpath));
        }
    }
    r
}

} // verus!
