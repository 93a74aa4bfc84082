//! Laws of theme reading, stated over what a file holds and what the
//! functions return.
use vstd::prelude::*;
use vstd::string::StringSliceAdditionalSpecFns;
use vstd::utf8::{valid_utf8, decode_utf8};
use crate::bytes::parse_i16_spec;
use crate::theme::directories::{
    DirectoryType, DirectoryView, directory_type_of, match_size_spec, size_distance_spec,
};
use crate::theme::parse::{
    DirAccum, SectionView, directories_from, fresh_accum, usable_name, with_property,
    section_name, section_events, theme_props, split_commas, without_hicolor, first_inherits,
};
use crate::bytes::{trim_ascii_spec, lemma_first_index_unique};
use crate::theme::{
    EntryView, ThemeView, ScanState, from_path_spec, lookup_index, second_scan, first_scan,
    themes_found, file_candidates, icon_candidates, files_in_dirs, matching_names,
};
use crate::paths::{path_join_spec, path_with_file_name_spec};

verus! {

/// The keys that a directory section reads are six different byte strings.
pub proof fn lemma_keys_distinct()
    ensures
        "Size".spec_bytes() != "Scale".spec_bytes(),
        "Size".spec_bytes() != "Type".spec_bytes(),
        "Size".spec_bytes() != "MaxSize".spec_bytes(),
        "Size".spec_bytes() != "MinSize".spec_bytes(),
        "Size".spec_bytes() != "Threshold".spec_bytes(),
        "Scale".spec_bytes() != "Type".spec_bytes(),
        "Scale".spec_bytes() != "MaxSize".spec_bytes(),
        "Scale".spec_bytes() != "MinSize".spec_bytes(),
        "Scale".spec_bytes() != "Threshold".spec_bytes(),
        "Type".spec_bytes() != "MaxSize".spec_bytes(),
        "Type".spec_bytes() != "MinSize".spec_bytes(),
        "Type".spec_bytes() != "Threshold".spec_bytes(),
        "MaxSize".spec_bytes() != "MinSize".spec_bytes(),
        "MaxSize".spec_bytes() != "Threshold".spec_bytes(),
        "MinSize".spec_bytes() != "Threshold".spec_bytes(),
{
    reveal_strlit("Size");
    reveal_strlit("Scale");
    reveal_strlit("Type");
    reveal_strlit("MaxSize");
    reveal_strlit("MinSize");
    reveal_strlit("Threshold");
    vstd::utf8::is_ascii_chars_encode_utf8("Size"@);
    vstd::utf8::is_ascii_chars_encode_utf8("Scale"@);
    vstd::utf8::is_ascii_chars_encode_utf8("Type"@);
    vstd::utf8::is_ascii_chars_encode_utf8("MaxSize"@);
    vstd::utf8::is_ascii_chars_encode_utf8("MinSize"@);
    vstd::utf8::is_ascii_chars_encode_utf8("Threshold"@);
    assert("Size".spec_bytes()[0] == 'S' as u8);
    assert("Type".spec_bytes()[0] == 'T' as u8);
    assert("MaxSize".spec_bytes()[1] == 'a' as u8);
    assert("MinSize".spec_bytes()[1] == 'i' as u8);
}


/// The value of the last property with `key` among `props`.
pub open spec fn last_value(props: Seq<(Seq<u8>, Seq<u8>)>, key: Seq<u8>) -> Option<Seq<u8>>
    decreases props.len(),
{
    if props.len() == 0 {
        None
    } else {
        match last_value(props.drop_first(), key) {
            Some(v) => Some(v),
            None => if props[0].0 == key {
                Some(props[0].1)
            } else {
                None
            },
        }
    }
}

/// The `i16` that the last property with `key` among `props` writes: none
/// where there is no such property or its value is not such a number.
pub open spec fn last_number(props: Seq<(Seq<u8>, Seq<u8>)>, key: Seq<u8>) -> Option<i16> {
    match last_value(props, key) {
        Some(v) => parse_i16_spec(v),
        None => None,
    }
}

/// `props` as property events.
pub open spec fn property_events(props: Seq<(Seq<u8>, Seq<u8>)>) -> Seq<SectionView> {
    props.map_values(|p: (Seq<u8>, Seq<u8>)| SectionView::Property(p.0, p.1))
}

/// `acc` with what `props` set: for each key the last value given, the
/// earlier state where the key is not given.
spec fn overridden(acc: DirAccum, props: Seq<(Seq<u8>, Seq<u8>)>) -> DirAccum {
    DirAccum {
        name: acc.name,
        size: match last_value(props, "Size".spec_bytes()) {
            Some(v) => parse_i16_spec(v),
            None => acc.size,
        },
        scale: match last_value(props, "Scale".spec_bytes()) {
            Some(v) => parse_i16_spec(v),
            None => acc.scale,
        },
        maxsize: match last_value(props, "MaxSize".spec_bytes()) {
            Some(v) => parse_i16_spec(v),
            None => acc.maxsize,
        },
        minsize: match last_value(props, "MinSize".spec_bytes()) {
            Some(v) => parse_i16_spec(v),
            None => acc.minsize,
        },
        threshold: match last_value(props, "Threshold".spec_bytes()) {
            Some(v) => parse_i16_spec(v),
            None => acc.threshold,
        },
        dtype: match last_value(props, "Type".spec_bytes()) {
            Some(v) => directory_type_of(v),
            None => acc.dtype,
        },
    }
}

proof fn lemma_props_apply(acc: DirAccum, props: Seq<(Seq<u8>, Seq<u8>)>, tail: Seq<SectionView>)
    requires
        usable_name(acc.name),
    ensures
        directories_from(property_events(props) + tail, acc) == directories_from(
            tail,
            overridden(acc, props),
        ),
    decreases props.len(),
{
    if props.len() == 0 {
        assert(property_events(props) + tail =~= tail);
        assert(overridden(acc, props) == acc);
    } else {
        lemma_keys_distinct();
        let all = property_events(props) + tail;
        let rest = props.drop_first();
        assert(all[0] == SectionView::Property(props[0].0, props[0].1));
        assert(all.drop_first() =~= property_events(rest) + tail);
        let acc1 = with_property(acc, props[0].0, props[0].1);
        lemma_props_apply(acc1, rest, tail);
        assert(overridden(acc1, rest) == overridden(acc, props));
    }
}

/// A directory section yields its directory from its own properties alone,
/// whatever came before it: the name is the header's, the size, scale,
/// `MaxSize`, `MinSize`, `Threshold` and `Type` are the last values given in
/// the section (scale 1, `MaxSize` and `MinSize` the size, threshold 2 and
/// type `Threshold` where none is given), and the sections after it are read
/// afresh. A section without a readable `Size` ends the list.
pub proof fn law_directory_from_own_section(
    acc: DirAccum,
    name: Seq<u8>,
    props: Seq<(Seq<u8>, Seq<u8>)>,
    rest: Seq<SectionView>,
)
    requires
        valid_utf8(name),
        name.len() > 0,
        name != "Icon Theme".spec_bytes(),
    ensures
        directories_from(
            seq![SectionView::Section(name)] + property_events(props) + seq![SectionView::EndSection]
                + rest,
            acc,
        ) == match last_number(props, "Size".spec_bytes()) {
            None => seq![],
            Some(s) => seq![
                DirectoryView {
                    name: decode_utf8(name),
                    size: s,
                    scale: match last_number(props, "Scale".spec_bytes()) {
                        Some(v) => v,
                        None => 1,
                    },
                    type_: match last_value(props, "Type".spec_bytes()) {
                        Some(v) => directory_type_of(v),
                        None => DirectoryType::Threshold,
                    },
                    maxsize: match last_number(props, "MaxSize".spec_bytes()) {
                        Some(v) => v,
                        None => s,
                    },
                    minsize: match last_number(props, "MinSize".spec_bytes()) {
                        Some(v) => v,
                        None => s,
                    },
                    threshold: match last_number(props, "Threshold".spec_bytes()) {
                        Some(v) => v,
                        None => 2,
                    },
                },
            ] + directories_from(rest, fresh_accum(seq![])),
        },
{
    let all = seq![SectionView::Section(name)] + property_events(props) + seq![
        SectionView::EndSection,
    ] + rest;
    let tail = seq![SectionView::EndSection] + rest;
    assert(all[0] == SectionView::Section(name));
    assert(all.drop_first() =~= property_events(props) + tail);
    let acc0 = fresh_accum(name);
    lemma_props_apply(acc0, props, tail);
    assert(tail[0] == SectionView::EndSection);
    assert(tail.drop_first() =~= rest);
}

/// A section whose `Type` is `Fixed` gives a directory of type `Fixed`, which
/// matches a request exactly when the request is its size at its scale.
pub proof fn law_fixed_section(
    acc: DirAccum,
    name: Seq<u8>,
    props: Seq<(Seq<u8>, Seq<u8>)>,
    rest: Seq<SectionView>,
    size: int,
    scale: int,
)
    requires
        valid_utf8(name),
        name.len() > 0,
        name != "Icon Theme".spec_bytes(),
        last_value(props, "Type".spec_bytes()) == Some("Fixed".spec_bytes()),
        last_number(props, "Size".spec_bytes()) is Some,
    ensures
        ({
            let d = directories_from(
                seq![SectionView::Section(name)] + property_events(props) + seq![
                    SectionView::EndSection,
                ] + rest,
                acc,
            )[0];
            &&& d.type_ == DirectoryType::Fixed
            &&& d.size == last_number(props, "Size".spec_bytes()).unwrap()
            &&& (match_size_spec(d, size, scale) <==> (size == d.size && scale == d.scale))
        }),
{
    law_directory_from_own_section(acc, name, props, rest);
}

/// A section whose `Type` is `Scalable` gives a directory of type
/// `Scalable`, which matches a request exactly when the request lies within
/// its `MinSize..=MaxSize` at its scale.
pub proof fn law_scalable_section(
    acc: DirAccum,
    name: Seq<u8>,
    props: Seq<(Seq<u8>, Seq<u8>)>,
    rest: Seq<SectionView>,
    size: int,
    scale: int,
)
    requires
        valid_utf8(name),
        name.len() > 0,
        name != "Icon Theme".spec_bytes(),
        last_value(props, "Type".spec_bytes()) == Some("Scalable".spec_bytes()),
        last_number(props, "Size".spec_bytes()) is Some,
    ensures
        ({
            let d = directories_from(
                seq![SectionView::Section(name)] + property_events(props) + seq![
                    SectionView::EndSection,
                ] + rest,
                acc,
            )[0];
            &&& d.type_ == DirectoryType::Scalable
            &&& (match_size_spec(d, size, scale) <==> (d.minsize <= size <= d.maxsize && scale
                == d.scale))
        }),
{
    reveal_strlit("Fixed");
    reveal_strlit("Scalable");
    vstd::utf8::is_ascii_chars_encode_utf8("Fixed"@);
    vstd::utf8::is_ascii_chars_encode_utf8("Scalable"@);
    assert("Fixed".spec_bytes() != "Scalable".spec_bytes());
    law_directory_from_own_section(acc, name, props, rest);
}

/// The distance of a directory to a request depends on the request only
/// through the pixels it asks for, size times scale: two requests for the
/// same number of pixels are equally far from every directory.
pub proof fn law_distance_in_pixels(d: DirectoryView, size1: int, scale1: int, size2: int, scale2: int)
    requires
        size1 * scale1 == size2 * scale2,
    ensures
        size_distance_spec(d, size1, scale1) == size_distance_spec(d, size2, scale2),
{
}

/// A `Fixed` directory is at distance 0 from a request for exactly as many
/// pixels as it holds (its size times its scale), whatever its own scale, and
/// otherwise at the difference of the two pixel counts.
pub proof fn law_fixed_distance(d: DirectoryView, size: int, scale: int)
    requires
        d.type_ == DirectoryType::Fixed,
    ensures
        d.size * d.scale == size * scale ==> size_distance_spec(d, size, scale) == 0,
        size_distance_spec(d, size, scale) >= 0,
        size_distance_spec(d, size, scale) == d.size * d.scale - size * scale || size_distance_spec(
            d,
            size,
            scale,
        ) == size * scale - d.size * d.scale,
{
}

/// The second scan keeps the order of the entries: scanning `a` and then
/// `b` gives the themes of `a`, then those of `b`.
pub proof fn law_second_scan_in_order(
    a: Seq<EntryView>,
    b: Seq<EntryView>,
    found: Seq<(Seq<u8>, Seq<char>)>,
)
    ensures
        second_scan(a + b, found) == second_scan(a, found) + second_scan(b, found),
    decreases b.len(),
{
    if b.len() == 0 {
        assert(a + b =~= a);
        assert(second_scan(b, found) =~= Seq::<(Seq<u8>, ThemeView)>::empty());
    } else {
        assert((a + b).drop_last() =~= a + b.drop_last());
        assert((a + b).last() == b.last());
        law_second_scan_in_order(a, b.drop_last(), found);
    }
}

/// One revisited entry gives its theme, where it holds one, with the index
/// first found for its name.
pub proof fn law_second_scan_one(e: EntryView, found: Seq<(Seq<u8>, Seq<char>)>)
    ensures
        second_scan(seq![e], found) == match from_path_spec(
            e.path,
            e.is_dir,
            e.has_index,
            lookup_index(found, e.name),
        ) {
            Some(t) => seq![(e.name, t)],
            None => seq![],
        },
{
    assert(seq![e].drop_last() =~= Seq::<EntryView>::empty());
    assert(second_scan(Seq::<EntryView>::empty(), found) =~= Seq::<(Seq<u8>, ThemeView)>::empty());
}

/// The icon files looked for directly in a directory: `name` joined to it
/// with `.svg` (where svg is asked for) or `.png` first, then the other of the
/// two, then `.xmp`, each file name set on the path tried before.
pub proof fn law_file_candidate_extensions(path: Seq<char>, name: Seq<char>, force_svg: bool)
    ensures
        ({
            let c = file_candidates(path, name, force_svg);
            let first: Seq<char> = if force_svg {
                ".svg"@
            } else {
                ".png"@
            };
            let second: Seq<char> = if force_svg {
                ".png"@
            } else {
                ".svg"@
            };
            &&& c.len() == 3
            &&& c[0] == path_with_file_name_spec(path_join_spec(path, name), name + first)
            &&& c[1] == path_with_file_name_spec(c[0], name + second)
            &&& c[2] == path_with_file_name_spec(c[1], name + ".xmp"@)
        }),
{
}

/// The icon files looked for in a theme: the file with `.svg` (where svg is
/// asked for) or `.png` in every directory, then the other of the two in
/// every directory, then `.xmp` in every directory.
pub proof fn law_icon_candidate_extensions(
    base: Seq<char>,
    dirs: Seq<Seq<char>>,
    name: Seq<char>,
    force_svg: bool,
)
    ensures
        icon_candidates(base, dirs, name, force_svg) == files_in_dirs(
            base,
            dirs,
            name + if force_svg {
                ".svg"@
            } else {
                ".png"@
            },
        ) + files_in_dirs(
            base,
            dirs,
            name + if force_svg {
                ".png"@
            } else {
                ".svg"@
            },
        ) + files_in_dirs(base, dirs, name + ".xmp"@),
{
}


/// A section that is not a directory section (the `[Icon Theme]` table, or a
/// header whose name is empty or not UTF-8) gives no directory: the
/// directories are those of the sections after it.
pub proof fn law_non_directory_section(
    acc: DirAccum,
    name: Seq<u8>,
    props: Seq<(Seq<u8>, Seq<u8>)>,
    next: Seq<u8>,
    rest: Seq<SectionView>,
)
    requires
        !usable_name(section_name(name)),
    ensures
        directories_from(
            seq![SectionView::Section(name)] + property_events(props) + seq![SectionView::EndSection]
                + seq![SectionView::Section(next)] + rest,
            acc,
        ) == directories_from(seq![SectionView::Section(next)] + rest, fresh_accum(seq![])),
    decreases props.len(),
{
    let a0 = fresh_accum(section_name(name));
    let tail = seq![SectionView::EndSection] + seq![SectionView::Section(next)] + rest;
    let all = seq![SectionView::Section(name)] + property_events(props) + tail;
    assert(all =~= seq![SectionView::Section(name)] + property_events(props) + seq![
        SectionView::EndSection,
    ] + seq![SectionView::Section(next)] + rest);
    assert(all[0] == SectionView::Section(name));
    assert(all.drop_first() =~= property_events(props) + tail);
    lemma_props_ignored(a0, props, tail);
    assert(tail[0] == SectionView::EndSection);
    assert(tail.drop_first() =~= seq![SectionView::Section(next)] + rest);
    let t2 = seq![SectionView::Section(next)] + rest;
    assert(t2[0] == SectionView::Section(next));
    assert(t2.drop_first() =~= rest);
    assert(directories_from(tail, a0) == directories_from(t2, a0));
    assert(directories_from(t2, a0) == directories_from(rest, fresh_accum(section_name(next))));
    assert(directories_from(t2, fresh_accum(seq![])) == directories_from(
        rest,
        fresh_accum(section_name(next)),
    ));
}

proof fn lemma_props_ignored(acc: DirAccum, props: Seq<(Seq<u8>, Seq<u8>)>, tail: Seq<SectionView>)
    requires
        !usable_name(acc.name),
    ensures
        directories_from(property_events(props) + tail, acc) == directories_from(tail, acc),
    decreases props.len(),
{
    if props.len() == 0 {
        assert(property_events(props) + tail =~= tail);
    } else {
        let all = property_events(props) + tail;
        assert(all[0] == SectionView::Property(props[0].0, props[0].1));
        assert(all.drop_first() =~= property_events(props.drop_first()) + tail);
        lemma_props_ignored(acc, props.drop_first(), tail);
    }
}

/// `p` is a prefix of `s`.
pub open spec fn is_prefix<A>(p: Seq<A>, s: Seq<A>) -> bool {
    p.len() <= s.len() && s.take(p.len() as int) == p
}

/// The first scan reads the entries in their order: what it has gathered from
/// the first entries (the themes, the directories to revisit and the indices
/// found) stands, in the same order, at the front of what it gathers from
/// those followed by more.
pub proof fn law_first_scan_in_order(a: Seq<EntryView>, b: Seq<EntryView>)
    ensures
        is_prefix(first_scan(a).themes, first_scan(a + b).themes),
        is_prefix(first_scan(a).revisit, first_scan(a + b).revisit),
        is_prefix(first_scan(a).found, first_scan(a + b).found),
    decreases b.len(),
{
    if b.len() == 0 {
        assert(a + b =~= a);
        assert(first_scan(a).themes.take(first_scan(a).themes.len() as int) =~= first_scan(a).themes);
        assert(first_scan(a).revisit.take(first_scan(a).revisit.len() as int) =~= first_scan(a).revisit);
        assert(first_scan(a).found.take(first_scan(a).found.len() as int) =~= first_scan(a).found);
    } else {
        law_first_scan_in_order(a, b.drop_last());
        assert((a + b).drop_last() =~= a + b.drop_last());
        assert((a + b).last() == b.last());
        let p = first_scan(a);
        let m = first_scan(a + b.drop_last());
        let f = first_scan(a + b);
        assert(f.themes.take(p.themes.len() as int) =~= m.themes.take(p.themes.len() as int));
        assert(f.revisit.take(p.revisit.len() as int) =~= m.revisit.take(p.revisit.len() as int));
        assert(f.found.take(p.found.len() as int) =~= m.found.take(p.found.len() as int));
    }
}

proof fn lemma_lookup_push(found: Seq<(Seq<u8>, Seq<char>)>, k: Seq<u8>, v: Seq<char>, n: Seq<u8>)
    ensures
        lookup_index(found.push((k, v)), n) == (match lookup_index(found, n) {
            Some(x) => Some(x),
            None => if n == k {
                Some(v)
            } else {
                None
            },
        }),
    decreases found.len(),
{
    if found.len() == 0 {
        assert(found.push((k, v)).drop_first() =~= Seq::<(Seq<u8>, Seq<char>)>::empty());
    } else {
        assert(found.push((k, v))[0] == found[0]);
        assert(found.push((k, v)).drop_first() =~= found.drop_first().push((k, v)));
        lemma_lookup_push(found.drop_first(), k, v, n);
    }
}

/// After the first scan, every theme found is listed with the index recorded
/// for its name, and no directory kept to revisit has an `index.theme`.
proof fn lemma_first_scan_indices(entries: Seq<EntryView>)
    ensures
        forall|i: int|
            0 <= i < first_scan(entries).themes.len() ==> lookup_index(
                first_scan(entries).found,
                #[trigger] first_scan(entries).themes[i].0,
            ) == Some(first_scan(entries).themes[i].1.index),
        forall|i: int|
            0 <= i < first_scan(entries).revisit.len() ==> !(
            #[trigger] first_scan(entries).revisit[i]).has_index,
    decreases entries.len(),
{
    if entries.len() > 0 {
        lemma_first_scan_indices(entries.drop_last());
        let st = first_scan(entries.drop_last());
        let e = entries.last();
        let fb = lookup_index(st.found, e.name);
        let f = first_scan(entries);
        match from_path_spec(e.path, e.is_dir, e.has_index, fb) {
            Some(t) => {
                if fb is None {
                    assert forall|i: int| 0 <= i < f.themes.len() implies lookup_index(
                        f.found,
                        #[trigger] f.themes[i].0,
                    ) == Some(f.themes[i].1.index) by {
                        lemma_lookup_push(st.found, e.name, t.index, f.themes[i].0);
                        if i < st.themes.len() {
                            assert(f.themes[i] == st.themes[i]);
                        }
                    }
                } else {
                    assert forall|i: int| 0 <= i < f.themes.len() implies lookup_index(
                        f.found,
                        #[trigger] f.themes[i].0,
                    ) == Some(f.themes[i].1.index) by {
                        if i < st.themes.len() {
                            assert(f.themes[i] == st.themes[i]);
                        }
                    }
                }
                assert forall|i: int| 0 <= i < f.revisit.len() implies !(
                #[trigger] f.revisit[i]).has_index by {
                    assert(f.revisit[i] == st.revisit[i]);
                }
            },
            None => {
                if e.is_dir {
                    assert forall|i: int| 0 <= i < f.revisit.len() implies !(
                    #[trigger] f.revisit[i]).has_index by {
                        if i < st.revisit.len() {
                            assert(f.revisit[i] == st.revisit[i]);
                        }
                    }
                }
            },
        }
    }
}

/// Every theme of the second scan over entries without an `index.theme` of
/// their own has the index recorded for its name.
proof fn lemma_second_scan_indices(revisit: Seq<EntryView>, found: Seq<(Seq<u8>, Seq<char>)>)
    requires
        forall|i: int| 0 <= i < revisit.len() ==> !(#[trigger] revisit[i]).has_index,
    ensures
        forall|i: int|
            0 <= i < second_scan(revisit, found).len() ==> lookup_index(
                found,
                #[trigger] second_scan(revisit, found)[i].0,
            ) == Some(second_scan(revisit, found)[i].1.index),
    decreases revisit.len(),
{
    if revisit.len() > 0 {
        let prev = revisit.drop_last();
        assert forall|i: int| 0 <= i < prev.len() implies !(#[trigger] prev[i]).has_index by {
            assert(prev[i] == revisit[i]);
        }
        lemma_second_scan_indices(prev, found);
        let e = revisit.last();
        assert(!revisit[revisit.len() - 1].has_index);
        let s = second_scan(revisit, found);
        let sp = second_scan(prev, found);
        assert forall|i: int| 0 <= i < s.len() implies lookup_index(found, #[trigger] s[i].0) == Some(
            s[i].1.index,
        ) by {
            if i < sp.len() {
                assert(s[i] == sp[i]);
            }
        }
    }
}

/// All installed themes of one name share one `index.theme`: that of the
/// first theme of the name found with an index of its own.
pub proof fn law_one_index_per_name(entries: Seq<EntryView>)
    ensures
        forall|i: int, j: int|
            0 <= i < themes_found(entries).len() && 0 <= j < themes_found(entries).len()
                && themes_found(entries)[i].0 == themes_found(entries)[j].0 ==> (
            #[trigger] themes_found(entries)[i]).1.index == (
            #[trigger] themes_found(entries)[j]).1.index,
{
    lemma_first_scan_indices(entries);
    let st = first_scan(entries);
    lemma_second_scan_indices(st.revisit, st.found);
    let flat = themes_found(entries);
    let s2 = second_scan(st.revisit, st.found);
    assert forall|i: int| 0 <= i < flat.len() implies lookup_index(st.found, #[trigger] flat[i].0)
        == Some(flat[i].1.index) by {
        if i < st.themes.len() {
            assert(flat[i] == st.themes[i]);
        } else {
            assert(flat[i] == s2[i - st.themes.len()]);
        }
    }
}

/// `n` is the name of a directory of `dirs` that holds `size` at `scale`.
pub open spec fn names_matching_dir(dirs: Seq<DirectoryView>, size: int, scale: int, n: Seq<char>) -> bool {
    exists|i: int| 0 <= i < dirs.len() && match_size_spec(dirs[i], size, scale) && #[trigger] dirs[i].name == n
}

/// The directories that `match_size` names are exactly those that hold the
/// requested size: every name in the result is that of a matching directory,
/// and every matching directory's name is in it.
pub proof fn law_matching_names_members(dirs: Seq<DirectoryView>, size: int, scale: int)
    ensures
        forall|i: int|
            0 <= i < dirs.len() && match_size_spec(#[trigger] dirs[i], size, scale)
                ==> matching_names(dirs, size, scale).contains(dirs[i].name),
        forall|k: int|
            0 <= k < matching_names(dirs, size, scale).len() ==> names_matching_dir(
                dirs,
                size,
                scale,
                #[trigger] matching_names(dirs, size, scale)[k],
            ),
    decreases dirs.len(),
{
    if dirs.len() > 0 {
        let prev = dirs.drop_last();
        law_matching_names_members(prev, size, scale);
        let m = matching_names(dirs, size, scale);
        let mp = matching_names(prev, size, scale);
        let last = dirs[dirs.len() - 1];
        assert(dirs.last() == last);
        assert(m == mp + (if match_size_spec(last, size, scale) {
            seq![last.name]
        } else {
            seq![]
        }));
        assert forall|i: int|
            0 <= i < dirs.len() && match_size_spec(#[trigger] dirs[i], size, scale) implies m.contains(
            dirs[i].name,
        ) by {
            if i < prev.len() {
                assert(prev[i] == dirs[i]);
                let k = choose|k: int| 0 <= k < mp.len() && mp[k] == prev[i].name;
                assert(m[k] == mp[k]);
            } else {
                assert(m[mp.len() as int] == dirs[i].name);
            }
        }
        assert forall|k: int| 0 <= k < m.len() implies names_matching_dir(dirs, size, scale, #[trigger] m[k]) by {
            if k < mp.len() {
                assert(m[k] == mp[k]);
                assert(names_matching_dir(prev, size, scale, mp[k]));
                let i = choose|i: int|
                    0 <= i < prev.len() && match_size_spec(prev[i], size, scale) && #[trigger] prev[i].name == mp[k];
                assert(dirs[i] == prev[i]);
                assert(dirs[i].name == m[k]);
            } else {
                assert(match_size_spec(last, size, scale));
                assert(m[k] == last.name);
                assert(dirs[dirs.len() - 1] == last);
                assert(dirs[dirs.len() - 1].name == m[k]);
            }
        }
    }
}


/// A line `key=value` (already trimmed, not starting with `[`, with no `=` in
/// `key`) is one property, `key` to `value`, whatever `value` holds; the lines
/// after it are read on as before.
pub proof fn law_property_line(
    key: Seq<u8>,
    value: Seq<u8>,
    rest: Seq<Seq<u8>>,
    table_found: bool,
)
    requires
        forall|i: int| 0 <= i < key.len() ==> key[i] != 0x3du8,
        key.len() == 0 || key[0] != 0x5bu8,
        trim_ascii_spec(key + seq![0x3du8] + value) == key + seq![0x3du8] + value,
    ensures
        section_events(seq![key + seq![0x3du8] + value] + rest, table_found) == seq![
            SectionView::Property(key, value),
        ] + section_events(rest, table_found),
        theme_props(seq![key + seq![0x3du8] + value] + rest, table_found) == seq![(key, value)]
            + theme_props(rest, table_found),
{
    let line = key + seq![0x3du8] + value;
    let lines = seq![line] + rest;
    assert(lines[0] == line);
    assert(lines.drop_first() =~= rest);
    assert forall|j: int| 0 <= j < key.len() implies line[j] != 0x3du8 by {
        assert(line[j] == key[j]);
    }
    assert(line[key.len() as int] == 0x3du8);
    lemma_first_index_unique(line, 0x3du8, key.len() as int);
    assert(line.take(key.len() as int) =~= key);
    assert(line.skip(key.len() as int + 1) =~= value);
    if key.len() > 0 {
        assert(line[0] == key[0]);
    }
}

/// A line `[name]` (already trimmed) is a section header: the first header of
/// a file announces its section (twice where the name is not empty), a later
/// one closes the section before it and then announces its own (where the
/// name is not empty); every line after it is read as after a header.
pub proof fn law_header_line(name: Seq<u8>, rest: Seq<Seq<u8>>, table_found: bool)
    requires
        trim_ascii_spec(seq![0x5bu8] + name + seq![0x5du8]) == seq![0x5bu8] + name + seq![0x5du8],
    ensures
        section_events(seq![seq![0x5bu8] + name + seq![0x5du8]] + rest, table_found) == (if table_found {
            seq![SectionView::EndSection]
        } else {
            seq![SectionView::Section(name)]
        }) + (if name.len() > 0 {
            seq![SectionView::Section(name)]
        } else {
            seq![]
        }) + section_events(rest, true),
{
    let line = seq![0x5bu8] + name + seq![0x5du8];
    let lines = seq![line] + rest;
    assert(lines[0] == line);
    assert(lines.drop_first() =~= rest);
    assert(line[0] == 0x5bu8);
    assert(line.last() == 0x5du8);
    assert(line.subrange(1, line.len() - 1) =~= name);
}


/// `pieces` written one after another with a comma between each two.
pub open spec fn join_commas(pieces: Seq<Seq<u8>>) -> Seq<u8>
    decreases pieces.len(),
{
    if pieces.len() <= 1 {
        if pieces.len() == 0 {
            seq![]
        } else {
            pieces[0]
        }
    } else {
        pieces[0] + seq![0x2cu8] + join_commas(pieces.drop_first())
    }
}

/// Splitting a value at its commas gives back the pieces it was written
/// from, in order, where no piece holds a comma.
pub proof fn law_split_commas(pieces: Seq<Seq<u8>>)
    requires
        pieces.len() > 0,
        forall|i: int, j: int|
            0 <= i < pieces.len() && 0 <= j < pieces[i].len() ==> pieces[i][j] != 0x2cu8,
    ensures
        split_commas(join_commas(pieces)) == pieces,
    decreases pieces.len(),
{
    let v = join_commas(pieces);
    let p0 = pieces[0];
    if pieces.len() == 1 {
        crate::bytes::lemma_first_index(v, 0x2cu8);
        assert forall|j: int| 0 <= j < v.len() implies v[j] != 0x2cu8 by {}
        assert(split_commas(v) =~= pieces);
    } else {
        let rest = pieces.drop_first();
        assert(v == p0 + seq![0x2cu8] + join_commas(rest));
        assert forall|j: int| 0 <= j < p0.len() implies v[j] != 0x2cu8 by {
            assert(v[j] == p0[j]);
        }
        assert(v[p0.len() as int] == 0x2cu8);
        lemma_first_index_unique(v, 0x2cu8, p0.len() as int);
        assert(v.take(p0.len() as int) =~= p0);
        assert(v.skip(p0.len() as int + 1) =~= join_commas(rest));
        assert forall|i: int, j: int| 0 <= i < rest.len() && 0 <= j < rest[i].len() implies rest[i][j]
            != 0x2cu8 by {
            assert(rest[i] == pieces[i + 1]);
        }
        law_split_commas(rest);
        assert(split_commas(v) =~= pieces);
    }
}

/// Leaving out `hicolor` keeps every other parent, in order: it works piece by
/// piece, and keeps a piece exactly when it is not `hicolor`.
pub proof fn law_without_hicolor(a: Seq<Seq<u8>>, b: Seq<Seq<u8>>, p: Seq<u8>)
    ensures
        without_hicolor(a + b) == without_hicolor(a) + without_hicolor(b),
        without_hicolor(seq![p]) == (if p == "hicolor".spec_bytes() {
            seq![]
        } else {
            seq![p]
        }),
    decreases b.len(),
{
    assert(seq![p].drop_last() =~= Seq::<Seq<u8>>::empty());
    assert(without_hicolor(Seq::<Seq<u8>>::empty()) =~= Seq::<Seq<u8>>::empty());
    if b.len() == 0 {
        assert(a + b =~= a);
        assert(without_hicolor(b) =~= Seq::<Seq<u8>>::empty());
    } else {
        assert((a + b).drop_last() =~= a + b.drop_last());
        assert((a + b).last() == b.last());
        law_without_hicolor(a, b.drop_last(), p);
    }
}

/// The first `Inherits` property of the table is the one read: later ones
/// are ignored.
pub proof fn law_first_inherits(
    pre: Seq<(Seq<u8>, Seq<u8>)>,
    value: Seq<u8>,
    post: Seq<(Seq<u8>, Seq<u8>)>,
)
    requires
        forall|i: int| 0 <= i < pre.len() ==> (#[trigger] pre[i]).0 != "Inherits".spec_bytes(),
    ensures
        first_inherits(pre + seq![("Inherits".spec_bytes(), value)] + post) == Some(value),
    decreases pre.len(),
{
    let all = pre + seq![("Inherits".spec_bytes(), value)] + post;
    if pre.len() == 0 {
        assert(all[0] == ("Inherits".spec_bytes(), value));
    } else {
        assert(all[0] == pre[0]);
        assert(pre[0].0 != "Inherits".spec_bytes());
        let pre2 = pre.drop_first();
        assert forall|i: int| 0 <= i < pre2.len() implies (#[trigger] pre2[i]).0 != "Inherits".spec_bytes() by {
            assert(pre2[i] == pre[i + 1]);
        }
        assert(all.drop_first() =~= pre2 + seq![("Inherits".spec_bytes(), value)] + post);
        law_first_inherits(pre2, value, post);
    }
}

} // verus!
