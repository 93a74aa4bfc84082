//! The line structure of `index.theme` files: lines, section headers,
//! `key=value` properties, the events that the directory reader consumes, and
//! the properties of the `[Icon Theme]` table.
use vstd::prelude::*;
use vstd::string::StringSliceAdditionalSpecFns;
use vstd::utf8::{valid_utf8, decode_utf8};
use crate::bytes::{
    is_ascii_ws, trim_start_spec, trim_end_spec, first_index, lemma_first_index, trim_ascii_spec, find_byte, trim_ascii, bytes_eq,
    parse_i16_spec, parse_i16,
};
use crate::theme::Theme;
use crate::theme::directories::{
    Directory, DirectoryView, DirectoryType, directory_type_of,
};

verus! {

/// The lines of `f`: the pieces between line feeds, where a last piece that
/// no line feed ends counts only if it is not empty.
pub open spec fn lines_from(f: Seq<u8>) -> Seq<Seq<u8>>
    decreases f.len(),
{
    if f.len() == 0 {
        seq![]
    } else {
        match first_index(f, 0x0au8) {
            Some(i) => {
                proof {
                    lemma_first_index(f, 0x0au8);
                }
                seq![f.take(i)] + lines_from(f.skip(i + 1))
            },
            None => seq![f],
        }
    }
}

/// A trimmed line that starts with `[` is a section header when it also
/// ends with `]` after that first byte.
pub open spec fn is_header(l: Seq<u8>) -> bool {
    l.len() >= 2 && l[0] == 0x5bu8 && l.last() == 0x5du8
}

/// The name between the brackets of a header.
pub open spec fn header_name(l: Seq<u8>) -> Seq<u8> {
    l.subrange(1, l.len() - 1)
}

/// An event of the section reader, as values.
pub enum SectionView {
    Property(Seq<u8>, Seq<u8>),
    EndSection,
    Section(Seq<u8>),
}

/// The events that a header with `name` produces. The first header of a file
/// opens its section; a later one first closes the previous section. A
/// header with a non-empty name then announces its section (again, for the
/// first header).
pub open spec fn header_events(name: Seq<u8>, table_found: bool) -> Seq<SectionView> {
    (if table_found {
        seq![SectionView::EndSection]
    } else {
        seq![SectionView::Section(name)]
    }) + (if name.len() > 0 {
        seq![SectionView::Section(name)]
    } else {
        seq![]
    })
}

/// The events of the remaining `lines`, `table_found` telling whether a
/// header was seen before them. Blank lines, malformed headers and lines
/// without `=` produce nothing; the end of the file closes the last section.
pub open spec fn section_events(lines: Seq<Seq<u8>>, table_found: bool) -> Seq<SectionView>
    decreases lines.len(),
{
    if lines.len() == 0 {
        seq![SectionView::EndSection]
    } else {
        let l = trim_ascii_spec(lines[0]);
        let rest = lines.drop_first();
        if l.len() == 0 {
            section_events(rest, table_found)
        } else if l[0] == 0x5bu8 {
            if is_header(l) {
                header_events(header_name(l), table_found) + section_events(rest, true)
            } else {
                section_events(rest, table_found)
            }
        } else {
            match first_index(l, 0x3du8) {
                Some(p) => seq![SectionView::Property(l.take(p), l.skip(p + 1))] + section_events(
                    rest,
                    table_found,
                ),
                None => section_events(rest, table_found),
            }
        }
    }
}

/// The events of a whole file.
pub open spec fn sections_spec(file: Seq<u8>) -> Seq<SectionView> {
    section_events(lines_from(file), false)
}

/// The `key=value` pairs that the `[Icon Theme]` table reader yields for the
/// remaining `lines`: every property line until the first header that follows
/// the `[Icon Theme]` header, header lines holding `=` included.
pub open spec fn theme_props(lines: Seq<Seq<u8>>, found_table: bool) -> Seq<(Seq<u8>, Seq<u8>)>
    decreases lines.len(),
{
    if lines.len() == 0 {
        seq![]
    } else {
        let l = trim_ascii_spec(lines[0]);
        let rest = lines.drop_first();
        if l.len() == 0 {
            theme_props(rest, found_table)
        } else if l[0] == 0x5bu8 && found_table {
            seq![]
        } else {
            let ft = if l[0] == 0x5bu8 && is_header(l) {
                header_name(l) == "Icon Theme".spec_bytes()
            } else {
                found_table
            };
            match first_index(l, 0x3du8) {
                Some(p) => seq![(l.take(p), l.skip(p + 1))] + theme_props(rest, ft),
                None => theme_props(rest, ft),
            }
        }
    }
}

/// The properties of the `[Icon Theme]` table of a file.
pub open spec fn icon_theme_section_spec(file: Seq<u8>) -> Seq<(Seq<u8>, Seq<u8>)> {
    theme_props(lines_from(file), false)
}

/// An event of the section reader.
#[derive(Debug, Clone, Copy)]
pub enum DirectorySection<'a> {
    Property(&'a [u8], &'a [u8]),
    EndSection,
    Section(&'a [u8]),
}

impl<'a> View for DirectorySection<'a> {
    type V = SectionView;

    open spec fn view(&self) -> SectionView {
        match *self {
            DirectorySection::Property(k, v) => SectionView::Property(k@, v@),
            DirectorySection::EndSection => SectionView::EndSection,
            DirectorySection::Section(n) => SectionView::Section(n@),
        }
    }
}

/// The views of a sequence of events.
pub open spec fn events_view<'a>(s: Seq<DirectorySection<'a>>) -> Seq<SectionView> {
    s.map_values(|e: DirectorySection<'a>| e@)
}

/// The views of a sequence of byte-slice pairs.
pub open spec fn pairs_view<'a>(s: Seq<(&'a [u8], &'a [u8])>) -> Seq<(Seq<u8>, Seq<u8>)> {
    s.map_values(|p: (&'a [u8], &'a [u8])| (p.0@, p.1@))
}

/// The lines of `file` from `prev` on unfold into the line that ends at
/// `line_end` (a line feed there, or the end of the file) and those after `next`.
proof fn lemma_next_line(file: Seq<u8>, prev: int, line_end: int, next: int)
    requires
        0 <= prev < file.len(),
        prev <= line_end <= file.len(),
        (line_end < file.len() && next == line_end + 1 && first_index(
            file.subrange(prev, file.len() as int),
            0x0au8,
        ) == Some(line_end - prev)) || (line_end == file.len() && next == file.len() && first_index(
            file.subrange(prev, file.len() as int),
            0x0au8,
        ) is None),
    ensures
        lines_from(file.skip(prev)) == seq![file.subrange(prev, line_end)] + lines_from(
            file.skip(next),
        ),
{
    let rest = file.skip(prev);
    assert(rest =~= file.subrange(prev, file.len() as int));
    if line_end < file.len() {
        assert(rest.take(line_end - prev) =~= file.subrange(prev, line_end));
        assert(rest.skip(line_end - prev + 1) =~= file.skip(next));
    } else {
        assert(file.skip(next) =~= Seq::<u8>::empty());
        assert(lines_from(file.skip(next)) =~= Seq::<Seq<u8>>::empty());
        assert(rest =~= file.subrange(prev, line_end));
    }
}

/// The header name of `line`, where it is a header.
fn strip_brackets(line: &[u8]) -> (r: Option<&[u8]>)
    requires
        line@.len() > 0,
        line@[0] == 0x5bu8,
    ensures
        r is Some <==> is_header(line@),
        r matches Some(n) ==> n@ == header_name(line@),
{
    let len = line.len();
    if len >= 2 && line[len - 1] == 0x5du8 {
        Some(&line[1..len - 1])
    } else {
        None
    }
}

/// The line of `file` that starts at `prev`, untrimmed, and where the next line starts.
fn next_line(file: &[u8], prev: usize) -> (r: (&[u8], usize))
    requires
        prev < file@.len(),
    ensures
        prev < r.1 <= file@.len(),
        lines_from(file@.skip(prev as int)) == seq![r.0@] + lines_from(file@.skip(r.1 as int)),
{
    let len = file.len();
    let rest = &file[prev..len];
    match find_byte(0x0au8, rest) {
        Some(i) => {
            proof {
                lemma_first_index(rest@, 0x0au8);
                lemma_next_line(file@, prev as int, (prev + i) as int, (prev + i + 1) as int);
            }
            (&file[prev..prev + i], prev + i + 1)
        },
        None => {
            proof {
                lemma_next_line(file@, prev as int, len as int, len as int);
            }
            (&file[prev..len], len)
        },
    }
}

/// The events of `file`: its section headers, its properties, and the end of
/// each section.
pub fn sections<'a>(file: &'a [u8]) -> (r: Vec<DirectorySection<'a>>)
    ensures
        events_view(r@) == sections_spec(file@),
{
    let mut events: Vec<DirectorySection<'a>> = Vec::new();
    let mut table_found = false;
    let mut prev: usize = 0;
    let len = file.len();
    assert(file@.skip(0) =~= file@);
    while prev < len
        invariant
            len == file@.len(),
            prev <= len,
            sections_spec(file@) == events_view(events@) + section_events(
                lines_from(file@.skip(prev as int)),
                table_found,
            ),
        decreases len - prev,
    {
        let ghost before = events@;
        let ghost lines = lines_from(file@.skip(prev as int));
        let ghost tf = table_found;
        let (raw, next) = next_line(file, prev);
        let line = trim_ascii(raw);
        prev = next;
        assert(lines.drop_first() =~= lines_from(file@.skip(prev as int)));
        if line.len() == 0 {
        } else if line[0] == 0x5bu8 {
            match strip_brackets(line) {
                Some(name) => {
                    if table_found {
                        events.push(DirectorySection::EndSection);
                    } else {
                        table_found = true;
                        events.push(DirectorySection::Section(name));
                    }
                    if name.len() > 0 {
                        events.push(DirectorySection::Section(name));
                    }
                    assert(events_view(events@) =~= events_view(before) + header_events(
                        name@,
                        tf,
                    ));
                },
                None => {},
            }
        } else {
            match find_byte(0x3du8, line) {
                Some(p) => {
                    proof {
                        lemma_first_index(line@, 0x3du8);
                    }
                    let key = &line[0..p];
                    let value = &line[p + 1..line.len()];
                    events.push(DirectorySection::Property(key, value));
                    assert(key@ =~= line@.take(p as int));
                    assert(value@ =~= line@.skip(p + 1));
                },
                None => {},
            }
        }
        assert(events_view(events@) + section_events(
            lines_from(file@.skip(prev as int)),
            table_found,
        ) =~= sections_spec(file@));
    }
    assert(file@.skip(prev as int) =~= Seq::<u8>::empty());
    events.push(DirectorySection::EndSection);
    assert(events_view(events@) =~= sections_spec(file@));
    events
}


/// The `key=value` pairs of the `[Icon Theme]` table of `file`, read until
/// the header that follows that table.
pub fn icon_theme_section<'a>(file: &'a [u8]) -> (r: Vec<(&'a [u8], &'a [u8])>)
    ensures
        pairs_view(r@) == icon_theme_section_spec(file@),
{
    let mut props: Vec<(&'a [u8], &'a [u8])> = Vec::new();
    let mut found_table = false;
    let mut prev: usize = 0;
    let len = file.len();
    let icon_theme = "Icon Theme".as_bytes();
    assert(file@.skip(0) =~= file@);
    while prev < len
        invariant
            len == file@.len(),
            prev <= len,
            icon_theme@ == "Icon Theme".spec_bytes(),
            icon_theme_section_spec(file@) == pairs_view(props@) + theme_props(
                lines_from(file@.skip(prev as int)),
                found_table,
            ),
        decreases len - prev,
    {
        let ghost before = props@;
        let ghost lines = lines_from(file@.skip(prev as int));
        let (raw, next) = next_line(file, prev);
        let line = trim_ascii(raw);
        prev = next;
        assert(lines.drop_first() =~= lines_from(file@.skip(prev as int)));
        if line.len() != 0 {
            if line[0] == 0x5bu8 {
                if found_table {
                    assert(pairs_view(props@) =~= icon_theme_section_spec(file@));
                    return props;
                }
                match strip_brackets(line) {
                    Some(name) => {
                        found_table = bytes_eq(name, icon_theme);
                    },
                    None => {},
                }
            }
            match find_byte(0x3du8, line) {
                Some(p) => {
                    proof {
                        lemma_first_index(line@, 0x3du8);
                    }
                    let key = &line[0..p];
                    let value = &line[p + 1..line.len()];
                    props.push((key, value));
                    assert(key@ =~= line@.take(p as int));
                    assert(value@ =~= line@.skip(p + 1));
                },
                None => {},
            }
        }
        assert(pairs_view(props@) + theme_props(lines_from(file@.skip(prev as int)), found_table)
            =~= icon_theme_section_spec(file@));
    }
    assert(file@.skip(prev as int) =~= Seq::<u8>::empty());
    assert(pairs_view(props@) =~= icon_theme_section_spec(file@));
    props
}

/// The value of the first `Inherits` property among `props`.
pub open spec fn first_inherits(props: Seq<(Seq<u8>, Seq<u8>)>) -> Option<Seq<u8>>
    decreases props.len(),
{
    if props.len() == 0 {
        None
    } else if props[0].0 == "Inherits".spec_bytes() {
        Some(props[0].1)
    } else {
        first_inherits(props.drop_first())
    }
}

/// The pieces of `v` between commas (one piece where there is no comma).
pub open spec fn split_commas(v: Seq<u8>) -> Seq<Seq<u8>>
    decreases v.len(),
{
    match first_index(v, 0x2cu8) {
        Some(i) => {
            proof {
                lemma_first_index(v, 0x2cu8);
            }
            seq![v.take(i)] + split_commas(v.skip(i + 1))
        },
        None => seq![v],
    }
}

/// `parts` without the pieces that read `hicolor`, in order.
pub open spec fn without_hicolor(parts: Seq<Seq<u8>>) -> Seq<Seq<u8>>
    decreases parts.len(),
{
    if parts.len() == 0 {
        seq![]
    } else {
        without_hicolor(parts.drop_last()) + (if parts.last() == "hicolor".spec_bytes() {
            seq![]
        } else {
            seq![parts.last()]
        })
    }
}

/// The parent themes that `file` names: the comma-separated pieces of the
/// first `Inherits` value of its `[Icon Theme]` table, `hicolor` left out
/// (every lookup falls back to it anyway).
pub open spec fn inherits_spec(file: Seq<u8>) -> Seq<Seq<u8>> {
    match first_inherits(icon_theme_section_spec(file)) {
        Some(v) => without_hicolor(split_commas(v)),
        None => seq![],
    }
}

/// The views of a sequence of byte slices.
pub open spec fn slices_view<'a>(s: Seq<&'a [u8]>) -> Seq<Seq<u8>> {
    s.map_values(|p: &'a [u8]| p@)
}

/// The pieces of `v` between commas, split from `start` on.
proof fn lemma_split_step(v: Seq<u8>, start: int, i: int)
    requires
        0 <= start <= v.len(),
        first_index(v.skip(start), 0x2cu8) == Some(i),
    ensures
        0 <= i < v.len() - start,
        split_commas(v.skip(start)) == seq![v.subrange(start, start + i)] + split_commas(
            v.skip(start + i + 1),
        ),
{
    lemma_first_index(v.skip(start), 0x2cu8);
    assert(v.skip(start).take(i) =~= v.subrange(start, start + i));
    assert(v.skip(start).skip(i + 1) =~= v.skip(start + i + 1));
}



/// The error type of `std::str::from_utf8`.
#[verifier::external_type_specification]
#[verifier::external_body]
pub struct ExUtf8Error(core::str::Utf8Error);

/// `std::str::from_utf8` succeeds exactly on valid UTF-8, with the string
/// whose bytes are `v`.
pub assume_specification[ core::str::from_utf8 ](v: &[u8]) -> (r: Result<&str, core::str::Utf8Error>)
    ensures
        r is Ok <==> valid_utf8(v@),
        r matches Ok(s) ==> s@ == decode_utf8(v@) && s.spec_bytes() == v@,
;

/// What the directory reader knows of the current section.
pub struct DirAccum {
    pub name: Seq<u8>,
    pub size: Option<i16>,
    pub scale: Option<i16>,
    pub maxsize: Option<i16>,
    pub minsize: Option<i16>,
    pub threshold: Option<i16>,
    pub dtype: DirectoryType,
}

/// Nothing known yet: no name, no sizes, the default type.
pub open spec fn fresh_accum(name: Seq<u8>) -> DirAccum {
    DirAccum {
        name: name,
        size: None,
        scale: None,
        maxsize: None,
        minsize: None,
        threshold: None,
        dtype: DirectoryType::Threshold,
    }
}

/// The name of a section: its header name where that is UTF-8, empty otherwise.
pub open spec fn section_name(n: Seq<u8>) -> Seq<u8> {
    if valid_utf8(n) {
        n
    } else {
        seq![]
    }
}

/// A section describes an icon directory when it has a name other than `Icon Theme`.
pub open spec fn usable_name(n: Seq<u8>) -> bool {
    n.len() > 0 && n != "Icon Theme".spec_bytes()
}

/// The section state after the property `key=value`: the keys `Size`,
/// `Scale`, `MaxSize`, `MinSize`, `Threshold` set a number (none where the
/// value is not one), `Type` sets the type; other keys, and properties outside
/// a directory section, change nothing.
pub open spec fn with_property(acc: DirAccum, key: Seq<u8>, value: Seq<u8>) -> DirAccum {
    if !usable_name(acc.name) {
        acc
    } else if key == "Size".spec_bytes() {
        DirAccum { size: parse_i16_spec(value), ..acc }
    } else if key == "Scale".spec_bytes() {
        DirAccum { scale: parse_i16_spec(value), ..acc }
    } else if key == "Type".spec_bytes() {
        DirAccum { dtype: directory_type_of(value), ..acc }
    } else if key == "MaxSize".spec_bytes() {
        DirAccum { maxsize: parse_i16_spec(value), ..acc }
    } else if key == "MinSize".spec_bytes() {
        DirAccum { minsize: parse_i16_spec(value), ..acc }
    } else if key == "Threshold".spec_bytes() {
        DirAccum { threshold: parse_i16_spec(value), ..acc }
    } else {
        acc
    }
}

/// The directory that a closed section of size `size` describes: scale 1,
/// `MaxSize` and `MinSize` the size, and threshold 2 where they are not given.
pub open spec fn directory_of(acc: DirAccum, size: i16) -> DirectoryView {
    DirectoryView {
        name: decode_utf8(acc.name),
        size: size,
        scale: match acc.scale {
            Some(s) => s,
            None => 1,
        },
        type_: acc.dtype,
        maxsize: match acc.maxsize {
            Some(s) => s,
            None => size,
        },
        minsize: match acc.minsize {
            Some(s) => s,
            None => size,
        },
        threshold: match acc.threshold {
            Some(s) => s,
            None => 2,
        },
    }
}

/// The directories that the remaining `events` describe, given the state of
/// the current section. A directory section closes into a directory; the
/// first directory section that closes without a `Size` ends the list.
pub open spec fn directories_from(events: Seq<SectionView>, acc: DirAccum) -> Seq<DirectoryView>
    decreases events.len(),
{
    if events.len() == 0 {
        seq![]
    } else {
        let rest = events.drop_first();
        match events[0] {
            SectionView::Property(k, v) => directories_from(rest, with_property(acc, k, v)),
            SectionView::Section(n) => directories_from(rest, fresh_accum(section_name(n))),
            SectionView::EndSection => {
                if !usable_name(acc.name) {
                    directories_from(rest, acc)
                } else {
                    match acc.size {
                        None => seq![],
                        Some(s) => seq![directory_of(acc, s)] + directories_from(
                            rest,
                            fresh_accum(seq![]),
                        ),
                    }
                }
            },
        }
    }
}

/// The directories that `file` describes.
pub open spec fn directories_spec(file: Seq<u8>) -> Seq<DirectoryView> {
    directories_from(sections_spec(file), fresh_accum(seq![]))
}

/// The views of a sequence of directories.
pub open spec fn dirs_view<'a>(s: Seq<Directory<'a>>) -> Seq<DirectoryView> {
    s.map_values(|d: Directory<'a>| d@)
}

impl Theme {
    /// The parent themes named by the `Inherits` property of the `[Icon Theme]`
    /// table of `file`, in order, without `hicolor`.
    pub fn inherits<'a>(&self, file: &'a [u8]) -> (r: Vec<&'a [u8]>)
        ensures
            slices_view(r@) == inherits_spec(file@),
            forall|i: int| 0 <= i < r@.len() ==> r@[i]@ != "hicolor".spec_bytes(),
    {
        let props = icon_theme_section(file);
        let key = "Inherits".as_bytes();
        let hicolor = "hicolor".as_bytes();
        let mut found: Option<&'a [u8]> = None;
        let mut k: usize = 0;
        assert(pairs_view(props@).skip(0) =~= pairs_view(props@));
        while k < props.len()
            invariant_except_break
                found is None,
                first_inherits(pairs_view(props@)) == first_inherits(pairs_view(props@).skip(k as int)),
            invariant
                k <= props@.len(),
                key@ == "Inherits".spec_bytes(),
            ensures
                found matches Some(v) ==> first_inherits(pairs_view(props@)) == Some(v@),
                found is None ==> first_inherits(pairs_view(props@)) is None,
            decreases props@.len() - k,
        {
            assert(pairs_view(props@).skip(k as int).len() > 0);
            let (name, value) = props[k];
            if bytes_eq(name, key) {
                found = Some(value);
                assert(pairs_view(props@).skip(k as int)[0] == (name@, value@));
                break;
            }
            assert(pairs_view(props@).skip(k as int).drop_first() =~= pairs_view(props@).skip(
                k + 1,
            ));
            k = k + 1;
        }
        let mut parents: Vec<&'a [u8]> = Vec::new();
        match found {
            None => {
                parents
            },
            Some(value) => {
                assert(first_inherits(pairs_view(props@)) == Some(value@));
                let len = value.len();
                let mut start: usize = 0;
                let mut done = false;
                let ghost mut pieces: Seq<Seq<u8>> = seq![];
                assert(value@.skip(0) =~= value@);
                while !done
                    invariant
                        len == value@.len(),
                        start <= len,
                        hicolor@ == "hicolor".spec_bytes(),
                        !done ==> split_commas(value@) == pieces + split_commas(value@.skip(start as int)),
                        done ==> split_commas(value@) == pieces,
                        slices_view(parents@) == without_hicolor(pieces),
                        forall|i: int| 0 <= i < parents@.len() ==> parents@[i]@ != "hicolor".spec_bytes(),
                    decreases (len - start) + (if done { 0int } else { 1int }),
                {
                    let rest = &value[start..len];
                    let (piece, next_start, last) = match find_byte(0x2cu8, rest) {
                        Some(i) => {
                            proof {
                                assert(rest@ =~= value@.skip(start as int));
                                lemma_split_step(value@, start as int, i as int);
                            }
                            (&value[start..start + i], start + i + 1, false)
                        },
                        None => {
                            proof {
                                assert(rest@ =~= value@.skip(start as int));
                            }
                            (rest, len, true)
                        },
                    };
                    let ghost old_pieces = pieces;
                    proof {
                        pieces = pieces.push(piece@);
                        assert(pieces.drop_last() =~= old_pieces);
                    }
                    if !bytes_eq(piece, hicolor) {
                        parents.push(piece);
                    }
                    proof {
                        assert(slices_view(parents@) =~= without_hicolor(pieces));
                        if !last {
                            assert(split_commas(value@) =~= pieces + split_commas(value@.skip(next_start as int)));
                        } else {
                            assert(split_commas(value@) =~= pieces);
                        }
                    }
                    start = next_start;
                    done = last;
                }
                parents
            },
        }
    }

    /// The icon directories that the `index.theme` contents `file` declare, in
    /// file order. Their names are never empty and never `Icon Theme`.
    pub fn get_all_directories<'a>(&self, file: &'a [u8]) -> (r: Vec<Directory<'a>>)
        ensures
            dirs_view(r@) == directories_spec(file@),
    {
        let events = sections(file);
        let icon_theme = "Icon Theme".as_bytes();
        let mut dirs: Vec<Directory<'a>> = Vec::new();
        let mut name: &'a str = "";
        let mut name_bytes: &'a [u8] = &file[0..0];
        let mut size: Option<i16> = None;
        let mut scale: Option<i16> = None;
        let mut maxsize: Option<i16> = None;
        let mut minsize: Option<i16> = None;
        let mut threshold: Option<i16> = None;
        let mut dtype = DirectoryType::default();
        let mut i: usize = 0;
        assert(events_view(events@).skip(0) =~= events_view(events@));
        assert(name_bytes@ =~= Seq::<u8>::empty());
        while i < events.len()
            invariant
                i <= events@.len(),
                icon_theme@ == "Icon Theme".spec_bytes(),
                usable_name(name_bytes@) ==> name@ == decode_utf8(name_bytes@),
                directories_spec(file@) == dirs_view(dirs@) + directories_from(
                    events_view(events@).skip(i as int),
                    DirAccum {
                        name: name_bytes@,
                        size: size,
                        scale: scale,
                        maxsize: maxsize,
                        minsize: minsize,
                        threshold: threshold,
                        dtype: dtype,
                    },
                ),
            decreases events@.len() - i,
        {
            let ghost evs = events_view(events@).skip(i as int);
            assert(evs.drop_first() =~= events_view(events@).skip(i + 1));
            assert(evs[0] == events@[i as int]@);
            let usable = name_bytes.len() > 0 && !bytes_eq(name_bytes, icon_theme);
            match events[i] {
                DirectorySection::Property(key, value) => {
                    if usable {
                        if bytes_eq(key, "Size".as_bytes()) {
                            size = parse_i16(value);
                        } else if bytes_eq(key, "Scale".as_bytes()) {
                            scale = parse_i16(value);
                        } else if bytes_eq(key, "Type".as_bytes()) {
                            dtype = DirectoryType::from(value);
                        } else if bytes_eq(key, "MaxSize".as_bytes()) {
                            maxsize = parse_i16(value);
                        } else if bytes_eq(key, "MinSize".as_bytes()) {
                            minsize = parse_i16(value);
                        } else if bytes_eq(key, "Threshold".as_bytes()) {
                            threshold = parse_i16(value);
                        }
                    }
                },
                DirectorySection::Section(new_name) => {
                    match std::str::from_utf8(new_name) {
                        Ok(s) => {
                            name = s;
                            name_bytes = new_name;
                        },
                        Err(_) => {
                            name = "";
                            name_bytes = &new_name[0..0];
                            assert(name_bytes@ =~= Seq::<u8>::empty());
                        },
                    }
                    size = None;
                    scale = None;
                    maxsize = None;
                    minsize = None;
                    threshold = None;
                    dtype = DirectoryType::default();
                },
                DirectorySection::EndSection => {
                    if usable {
                        match size {
                            None => {
                                assert(dirs_view(dirs@) =~= directories_spec(file@));
                                return dirs;
                            },
                            Some(s) => {
                                let ghost before = dirs@;
                                dirs.push(
                                    Directory {
                                        name: name,
                                        size: s,
                                        scale: match scale {
                                            Some(v) => v,
                                            None => 1,
                                        },
                                        type_: dtype,
                                        maxsize: match maxsize {
                                            Some(v) => v,
                                            None => s,
                                        },
                                        minsize: match minsize {
                                            Some(v) => v,
                                            None => s,
                                        },
                                        threshold: match threshold {
                                            Some(v) => v,
                                            None => 2,
                                        },
                                    },
                                );
                                assert(dirs_view(dirs@) =~= dirs_view(before).push(
                                    dirs@[before.len() as int]@,
                                ));
                                name = "";
                                name_bytes = &file[0..0];
                                assert(name_bytes@ =~= Seq::<u8>::empty());
                                scale = None;
                                maxsize = None;
                                minsize = None;
                                threshold = None;
                                dtype = DirectoryType::default();
                                size = None;
                            },
                        }
                    }
                },
            }
            i = i + 1;
        }
        assert(events_view(events@).skip(i as int) =~= Seq::<SectionView>::empty());
        assert(dirs_view(dirs@) =~= directories_spec(file@));
        dirs
    }
}


proof fn lemma_first_index_push(f: Seq<u8>, b: u8)
    ensures
        first_index(f.push(b), b) == (match first_index(f, b) {
            Some(i) => Some(i),
            None => Some(f.len() as int),
        }),
{
    lemma_first_index(f, b);
    match first_index(f, b) {
        Some(i) => {
            crate::bytes::lemma_first_index_unique(f.push(b), b, i);
        },
        None => {
            crate::bytes::lemma_first_index_unique(f.push(b), b, f.len() as int);
        },
    }
}

/// A line feed at the end adds an empty line where the file is empty or
/// already ends with one, and nothing otherwise.
proof fn lemma_lines_push_newline(f: Seq<u8>)
    ensures
        lines_from(f.push(0x0au8)) == (if f.len() == 0 || f.last() == 0x0au8 {
            lines_from(f).push(seq![])
        } else {
            lines_from(f)
        }),
    decreases f.len(),
{
    let g = f.push(0x0au8);
    lemma_first_index_push(f, 0x0au8);
    lemma_first_index(f, 0x0au8);
    if f.len() == 0 {
        assert(g.take(0) =~= Seq::<u8>::empty());
        assert(g.skip(1) =~= Seq::<u8>::empty());
        assert(lines_from(Seq::<u8>::empty()) =~= Seq::<Seq<u8>>::empty());
        assert(lines_from(f) =~= Seq::<Seq<u8>>::empty());
        assert(lines_from(g) == seq![g.take(0)] + lines_from(g.skip(1)));
        assert(lines_from(g) =~= seq![Seq::<u8>::empty()]);
    } else {
        match first_index(f, 0x0au8) {
            Some(i) => {
                assert(g.take(i) =~= f.take(i));
                assert(g.skip(i + 1) =~= f.skip(i + 1).push(0x0au8));
                lemma_lines_push_newline(f.skip(i + 1));
                if i + 1 < f.len() {
                    assert(f.skip(i + 1).last() == f.last());
                }
                assert(lines_from(g) =~= (if f.len() == 0 || f.last() == 0x0au8 {
                    lines_from(f).push(seq![])
                } else {
                    lines_from(f)
                }));
            },
            None => {
                assert(g.take(f.len() as int) =~= f);
                assert(g.skip(f.len() as int + 1) =~= Seq::<u8>::empty());
                assert(lines_from(Seq::<u8>::empty()) =~= Seq::<Seq<u8>>::empty());
                assert(f[f.len() - 1] != 0x0au8);
                assert(lines_from(g) == seq![g.take(f.len() as int)] + lines_from(
                    g.skip(f.len() as int + 1),
                ));
                assert(lines_from(g) =~= lines_from(f));
            },
        }
    }
}

proof fn lemma_trim_empty()
    ensures
        trim_ascii_spec(Seq::<u8>::empty()) =~= Seq::<u8>::empty(),
{
    assert(crate::bytes::trim_start_spec(Seq::<u8>::empty()) =~= Seq::<u8>::empty());
}

/// An empty line at the end produces no event.
proof fn lemma_events_blank_line(lines: Seq<Seq<u8>>, table_found: bool)
    ensures
        section_events(lines.push(seq![]), table_found) == section_events(lines, table_found),
    decreases lines.len(),
{
    lemma_trim_empty();
    let l2 = lines.push(seq![]);
    if lines.len() == 0 {
        assert(l2.drop_first() =~= lines);
    } else {
        assert(l2[0] == lines[0]);
        assert(l2.drop_first() =~= lines.drop_first().push(seq![]));
        lemma_events_blank_line(lines.drop_first(), table_found);
        lemma_events_blank_line(lines.drop_first(), true);
    }
}

/// An empty line at the end yields no property.
proof fn lemma_props_blank_line(lines: Seq<Seq<u8>>, found_table: bool)
    ensures
        theme_props(lines.push(seq![]), found_table) == theme_props(lines, found_table),
    decreases lines.len(),
{
    lemma_trim_empty();
    let l2 = lines.push(seq![]);
    if lines.len() == 0 {
        assert(l2.drop_first() =~= lines);
    } else {
        assert(l2[0] == lines[0]);
        assert(l2.drop_first() =~= lines.drop_first().push(seq![]));
        lemma_props_blank_line(lines.drop_first(), true);
        lemma_props_blank_line(lines.drop_first(), false);
    }
}

/// A file reads the same with and without a line feed at its end: the same
/// events, the same `[Icon Theme]` properties, the same directories and the
/// same parents.
pub proof fn law_trailing_newline(file: Seq<u8>)
    ensures
        sections_spec(file.push(0x0au8)) == sections_spec(file),
        icon_theme_section_spec(file.push(0x0au8)) == icon_theme_section_spec(file),
        directories_spec(file.push(0x0au8)) == directories_spec(file),
        inherits_spec(file.push(0x0au8)) == inherits_spec(file),
{
    lemma_lines_push_newline(file);
    lemma_events_blank_line(lines_from(file), false);
    lemma_props_blank_line(lines_from(file), false);
}


/// Every byte of `s` is ASCII whitespace.
pub open spec fn all_ws(s: Seq<u8>) -> bool {
    forall|i: int| 0 <= i < s.len() ==> is_ascii_ws(#[trigger] s[i])
}

/// Every byte of `s` is ASCII whitespace other than a line feed: a space, a
/// tab, a carriage return or a form feed.
pub open spec fn is_edge_blank(s: Seq<u8>) -> bool {
    forall|i: int| 0 <= i < s.len() ==> is_ascii_ws(#[trigger] s[i]) && s[i] != 0x0au8
}

/// `ls` written one after another, each line followed by a line feed.
pub open spec fn join_lines(ls: Seq<Seq<u8>>) -> Seq<u8>
    decreases ls.len(),
{
    if ls.len() == 0 {
        seq![]
    } else {
        ls[0] + seq![0x0au8] + join_lines(ls.drop_first())
    }
}

proof fn lemma_trim_start_concat(a: Seq<u8>, b: Seq<u8>)
    ensures
        trim_start_spec(a + b) == (if all_ws(a) {
            trim_start_spec(b)
        } else {
            trim_start_spec(a) + b
        }),
    decreases a.len(),
{
    if a.len() == 0 {
        assert(a + b =~= b);
    } else if is_ascii_ws(a[0]) {
        assert((a + b)[0] == a[0]);
        assert((a + b).drop_first() =~= a.drop_first() + b);
        lemma_trim_start_concat(a.drop_first(), b);
        if all_ws(a.drop_first()) {
            assert forall|i: int| 0 <= i < a.len() implies is_ascii_ws(#[trigger] a[i]) by {
                if i > 0 {
                    assert(a[i] == a.drop_first()[i - 1]);
                }
            }
        } else {
            let i = choose|i: int| 0 <= i < a.drop_first().len() && !is_ascii_ws(a.drop_first()[i]);
            assert(a[i + 1] == a.drop_first()[i]);
        }
    } else {
        assert((a + b)[0] == a[0]);
        assert(!is_ascii_ws(a[0]));
    }
}

proof fn lemma_trim_end_concat(a: Seq<u8>, b: Seq<u8>)
    ensures
        trim_end_spec(a + b) == (if all_ws(b) {
            trim_end_spec(a)
        } else {
            a + trim_end_spec(b)
        }),
    decreases b.len(),
{
    if b.len() == 0 {
        assert(a + b =~= a);
    } else if is_ascii_ws(b.last()) {
        assert((a + b).last() == b.last());
        assert((a + b).drop_last() =~= a + b.drop_last());
        lemma_trim_end_concat(a, b.drop_last());
        if all_ws(b.drop_last()) {
            assert forall|i: int| 0 <= i < b.len() implies is_ascii_ws(#[trigger] b[i]) by {
                if i < b.len() - 1 {
                    assert(b[i] == b.drop_last()[i]);
                }
            }
        } else {
            let i = choose|i: int| 0 <= i < b.drop_last().len() && !is_ascii_ws(b.drop_last()[i]);
            assert(b[i] == b.drop_last()[i]);
        }
    } else {
        assert((a + b).last() == b.last());
        assert(!is_ascii_ws(b[b.len() - 1]));
    }
}

/// Whitespace at either edge of a line goes in trimming.
pub proof fn law_trim_edges(pre: Seq<u8>, l: Seq<u8>, post: Seq<u8>)
    requires
        all_ws(pre),
        all_ws(post),
    ensures
        trim_ascii_spec(pre + l + post) == trim_ascii_spec(l),
{
    assert(pre + l + post =~= pre + (l + post));
    lemma_trim_start_concat(pre, l + post);
    lemma_trim_start_concat(l, post);
    lemma_trim_start_concat(post, Seq::<u8>::empty());
    assert(post + Seq::<u8>::empty() =~= post);
    lemma_trim_start_concat(l, Seq::<u8>::empty());
    assert(l + Seq::<u8>::empty() =~= l);
    assert(trim_start_spec(Seq::<u8>::empty()) =~= Seq::<u8>::empty());
    assert(trim_end_spec(Seq::<u8>::empty()) =~= Seq::<u8>::empty());
    if !all_ws(l) {
        lemma_trim_end_concat(trim_start_spec(l), post);
    }
}

proof fn lemma_events_trimmed(l1: Seq<Seq<u8>>, l2: Seq<Seq<u8>>, table_found: bool)
    requires
        l1.len() == l2.len(),
        forall|i: int| 0 <= i < l1.len() ==> trim_ascii_spec(#[trigger] l1[i]) == trim_ascii_spec(
            l2[i],
        ),
    ensures
        section_events(l1, table_found) == section_events(l2, table_found),
    decreases l1.len(),
{
    if l1.len() > 0 {
        assert(trim_ascii_spec(l1[0]) == trim_ascii_spec(l2[0]));
        assert forall|i: int| 0 <= i < l1.drop_first().len() implies trim_ascii_spec(
            #[trigger] l1.drop_first()[i],
        ) == trim_ascii_spec(l2.drop_first()[i]) by {
            assert(l1.drop_first()[i] == l1[i + 1]);
            assert(l2.drop_first()[i] == l2[i + 1]);
        }
        lemma_events_trimmed(l1.drop_first(), l2.drop_first(), table_found);
        lemma_events_trimmed(l1.drop_first(), l2.drop_first(), true);
    }
}

proof fn lemma_props_trimmed(l1: Seq<Seq<u8>>, l2: Seq<Seq<u8>>, found_table: bool)
    requires
        l1.len() == l2.len(),
        forall|i: int| 0 <= i < l1.len() ==> trim_ascii_spec(#[trigger] l1[i]) == trim_ascii_spec(
            l2[i],
        ),
    ensures
        theme_props(l1, found_table) == theme_props(l2, found_table),
    decreases l1.len(),
{
    if l1.len() > 0 {
        assert(trim_ascii_spec(l1[0]) == trim_ascii_spec(l2[0]));
        assert forall|i: int| 0 <= i < l1.drop_first().len() implies trim_ascii_spec(
            #[trigger] l1.drop_first()[i],
        ) == trim_ascii_spec(l2.drop_first()[i]) by {
            assert(l1.drop_first()[i] == l1[i + 1]);
            assert(l2.drop_first()[i] == l2[i + 1]);
        }
        lemma_props_trimmed(l1.drop_first(), l2.drop_first(), true);
        lemma_props_trimmed(l1.drop_first(), l2.drop_first(), false);
    }
}

/// Two files whose lines agree once trimmed read the same: the same events,
/// the same `[Icon Theme]` properties, the same directories, the same parents.
pub proof fn law_same_trimmed_lines(f: Seq<u8>, g: Seq<u8>)
    requires
        lines_from(f).len() == lines_from(g).len(),
        forall|i: int|
            0 <= i < lines_from(f).len() ==> trim_ascii_spec(#[trigger] lines_from(f)[i])
                == trim_ascii_spec(lines_from(g)[i]),
    ensures
        sections_spec(f) == sections_spec(g),
        icon_theme_section_spec(f) == icon_theme_section_spec(g),
        directories_spec(f) == directories_spec(g),
        inherits_spec(f) == inherits_spec(g),
{
    lemma_events_trimmed(lines_from(f), lines_from(g), false);
    lemma_props_trimmed(lines_from(f), lines_from(g), false);
}

/// The lines of `ls` written out are `ls` again, where no line holds a line feed.
proof fn lemma_lines_of_join(ls: Seq<Seq<u8>>)
    requires
        forall|i: int, j: int| 0 <= i < ls.len() && 0 <= j < ls[i].len() ==> ls[i][j] != 0x0au8,
    ensures
        lines_from(join_lines(ls)) == ls,
    decreases ls.len(),
{
    if ls.len() == 0 {
        assert(lines_from(Seq::<u8>::empty()) =~= Seq::<Seq<u8>>::empty());
    } else {
        let f = join_lines(ls);
        let first = ls[0];
        let rest = ls.drop_first();
        assert(f == first + seq![0x0au8] + join_lines(rest));
        assert forall|j: int| 0 <= j < first.len() implies f[j] != 0x0au8 by {
            assert(f[j] == first[j]);
        }
        assert(f[first.len() as int] == 0x0au8);
        crate::bytes::lemma_first_index_unique(f, 0x0au8, first.len() as int);
        assert(f.take(first.len() as int) =~= first);
        assert(f.skip(first.len() as int + 1) =~= join_lines(rest));
        assert forall|i: int, j: int| 0 <= i < rest.len() && 0 <= j < rest[i].len() implies rest[i][j]
            != 0x0au8 by {
            assert(rest[i] == ls[i + 1]);
        }
        lemma_lines_of_join(rest);
        assert(lines_from(f) == seq![first] + lines_from(join_lines(rest)));
        assert(lines_from(f) =~= ls);
    }
}

/// A carriage return before each line feed, and blanks (spaces, tabs,
/// carriage returns, form feeds) at either edge of any line, change nothing
/// that the parsers return: `g` writes each line of `f` between the blanks
/// `pre[i]` and `post[i]`.
pub proof fn law_line_edges(ls: Seq<Seq<u8>>, pre: Seq<Seq<u8>>, post: Seq<Seq<u8>>)
    requires
        pre.len() == ls.len(),
        post.len() == ls.len(),
        forall|i: int, j: int| 0 <= i < ls.len() && 0 <= j < ls[i].len() ==> ls[i][j] != 0x0au8,
        forall|i: int| 0 <= i < ls.len() ==> is_edge_blank(#[trigger] pre[i]),
        forall|i: int| 0 <= i < ls.len() ==> is_edge_blank(#[trigger] post[i]),
    ensures
        ({
            let f = join_lines(ls);
            let g = join_lines(Seq::new(ls.len(), |i: int| pre[i] + ls[i] + post[i]));
            &&& sections_spec(g) == sections_spec(f)
            &&& icon_theme_section_spec(g) == icon_theme_section_spec(f)
            &&& directories_spec(g) == directories_spec(f)
            &&& inherits_spec(g) == inherits_spec(f)
        }),
{
    let ls2 = Seq::new(ls.len(), |i: int| pre[i] + ls[i] + post[i]);
    assert forall|i: int, j: int| 0 <= i < ls2.len() && 0 <= j < ls2[i].len() implies ls2[i][j]
        != 0x0au8 by {
        let a = pre[i];
        let b = ls[i];
        let c = post[i];
        assert(ls2[i] == a + b + c);
        if j < a.len() {
            assert(ls2[i][j] == a[j]);
        } else if j < a.len() + b.len() {
            assert(ls2[i][j] == b[j - a.len()]);
        } else {
            assert(ls2[i][j] == c[j - a.len() - b.len()]);
        }
    }
    lemma_lines_of_join(ls);
    lemma_lines_of_join(ls2);
    assert forall|i: int| 0 <= i < ls.len() implies trim_ascii_spec(#[trigger] ls[i])
        == trim_ascii_spec(ls2[i]) by {
        assert(all_ws(pre[i]));
        assert(all_ws(post[i]));
        law_trim_edges(pre[i], ls[i], post[i]);
    }
    law_same_trimmed_lines(join_lines(ls), join_lines(ls2));
}

} // verus!
