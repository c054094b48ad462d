//! File paths as texts.

use vstd::prelude::*;
use vstd::slice::slice_subrange;

use crate::text;

verus! {

/// How a system writes paths.
#[derive(Clone, Copy, PartialEq, Eq, Structural, Debug)]
pub enum PathStyle {
    Unix,
    Windows,
}

/// The characters that separate a path's components.
pub open spec fn separators(style: PathStyle) -> Seq<char> {
    match style {
        PathStyle::Unix => seq!['/'],
        PathStyle::Windows => seq!['\\', '/'],
    }
}

pub open spec fn is_separator(style: PathStyle, c: char) -> bool {
    separators(style).contains(c)
}

pub open spec fn is_letter(c: char) -> bool {
    'A' <= c <= 'Z' || 'a' <= c <= 'z'
}

/// The path starts with a drive, as in `C:`.
pub open spec fn has_drive(t: Seq<char>, style: PathStyle) -> bool {
    style == PathStyle::Windows && t.len() >= 2 && is_letter(t[0]) && t[1] == ':'
}

/// The path of `name` in the directory `base`.
pub open spec fn within(base: Seq<char>, style: PathStyle, name: Seq<char>) -> Seq<char> {
    if base.len() == 0 || is_separator(style, base.last()) || (has_drive(base, style) && base.len()
        == 2) {
        base + name
    } else {
        base.push(separators(style)[0]) + name
    }
}

/// A component of a path.
#[verifier::ext_equal]
pub enum PartView {
    /// A drive, by its capital letter.
    Drive(char),
    /// The root of the file system or of the drive.
    Root,
    /// The current directory, at the start of a path.
    Here,
    Name(Seq<char>),
}

/// The names between separators, without empty ones and those that say "here".
pub open spec fn names(t: Seq<char>, style: PathStyle) -> Seq<PartView>
    decreases t.len(),
{
    if t.len() == 0 {
        seq![]
    } else {
        let k = text::stop_from(t, separators(style), 0);
        let head = t.take(k);
        let tail = if 0 <= k < t.len() {
            names(t.skip(k + 1), style)
        } else {
            seq![]
        };
        if head.len() == 0 || head == seq!['.'] {
            tail
        } else {
            seq![PartView::Name(head)] + tail
        }
    }
}

/// The components of what follows the drive.
pub open spec fn parts_after_drive(t: Seq<char>, style: PathStyle) -> Seq<PartView> {
    if t.len() > 0 && is_separator(style, t[0]) {
        seq![PartView::Root] + names(t, style)
    } else if text::before_stop(t, separators(style)) == seq!['.'] {
        seq![PartView::Here] + names(t, style)
    } else {
        names(t, style)
    }
}

pub open spec fn capital(c: char) -> char {
    if 'a' <= c <= 'z' {
        (c as u32 - 32) as char
    } else {
        c
    }
}

/// The components of a path.
pub open spec fn parts(t: Seq<char>, style: PathStyle) -> Seq<PartView> {
    if has_drive(t, style) {
        seq![PartView::Drive(capital(t[0]))] + parts_after_drive(t.skip(2), style)
    } else {
        parts_after_drive(t, style)
    }
}

/// The path lies in the directory `root`, or is it.
pub open spec fn lies_in(t: Seq<char>, root: Seq<char>, style: PathStyle) -> bool {
    parts(root, style).is_prefix_of(parts(t, style))
}

/// A file path.
#[derive(Clone, Debug, PartialEq, Eq)]
pub struct FilePath {
    pub text: String,
    pub style: PathStyle,
}

#[verifier::ext_equal]
pub struct PathView {
    pub text: Seq<char>,
    pub style: PathStyle,
}

impl PathView {
    pub open spec fn join(self, name: Seq<char>) -> PathView {
        PathView { text: within(self.text, self.style, name), style: self.style }
    }
}

fn separator(style: PathStyle, c: char) -> (r: bool)
    ensures
        r == is_separator(style, c),
{
    match style {
        PathStyle::Unix => {
            assert(separators(style)[0] == '/');
            c == '/'
        },
        PathStyle::Windows => {
            assert(separators(style)[0] == '\\');
            assert(separators(style)[1] == '/');
            c == '\\' || c == '/'
        },
    }
}

fn drive_of(t: &[char], style: PathStyle) -> (r: bool)
    ensures
        r == has_drive(t@, style),
{
    style == PathStyle::Windows && t.len() >= 2 && (('A' <= t[0] && t[0] <= 'Z') || ('a' <= t[0]
        && t[0] <= 'z')) && t[1] == ':'
}

impl FilePath {
    pub open spec fn view(&self) -> PathView {
        PathView { text: self.text@, style: self.style }
    }

    pub fn new(t: &str, style: PathStyle) -> (r: FilePath)
        ensures
            r@ == (PathView { text: t@, style }),
    {
        FilePath { text: t.to_owned(), style }
    }

    pub fn copy(&self) -> (r: FilePath)
        ensures
            r@ == self@,
    {
        FilePath { text: self.text.clone(), style: self.style }
    }

    /// The path of `name`, a relative one, in this directory.
    pub fn join(&self, name: &str) -> (r: FilePath)
        ensures
            r@ == self@.join(name@),
    {
        let base = text::chars_of(self.text.as_str());
        let n: usize = base.len();
        if n == 0 || separator(self.style, base[n - 1]) || (n == 2 && drive_of(
            base.as_slice(),
            self.style,
        )) {
            return FilePath {
                text: text::concat(self.text.as_str(), name),
                style: self.style,
            };
        }
        let mut out = self.text.clone();
        match self.style {
            PathStyle::Unix => out.push('/'),
            PathStyle::Windows => out.push('\\'),
        }
        out.append(name);
        FilePath { text: out, style: self.style }
    }
}

/// A component of a path.
enum Part {
    Drive(char),
    Root,
    Here,
    Name(String),
}

impl Part {
    spec fn view(&self) -> PartView {
        match self {
            Part::Drive(c) => PartView::Drive(*c),
            Part::Root => PartView::Root,
            Part::Here => PartView::Here,
            Part::Name(t) => PartView::Name(t@),
        }
    }

    fn same(&self, other: &Part) -> (r: bool)
        ensures
            r == (self@ == other@),
    {
        match (self, other) {
            (Part::Drive(a), Part::Drive(b)) => *a == *b,
            (Part::Root, Part::Root) => true,
            (Part::Here, Part::Here) => true,
            (Part::Name(a), Part::Name(b)) => text::same_text(a.as_str(), b.as_str()),
            _ => false,
        }
    }
}

spec fn part_views(list: Seq<Part>) -> Seq<PartView> {
    list.map_values(|p: Part| p@)
}

fn separators_of(style: PathStyle) -> (r: Vec<char>)
    ensures
        r@ == separators(style),
{
    match style {
        PathStyle::Unix => {
            let r: Vec<char> = vec!['/'];
            assert(r@ =~= separators(style));
            r
        },
        PathStyle::Windows => {
            let r: Vec<char> = vec!['\\', '/'];
            assert(r@ =~= separators(style));
            r
        },
    }
}

fn push_names(list: &mut Vec<Part>, t: &[char], style: PathStyle)
    ensures
        part_views(final(list)@) == part_views(old(list)@) + names(t@, style),
{
    let stops = separators_of(style);
    let n: usize = t.len();
    let mut start: usize = 0;
    assert(t@.skip(0) =~= t@);
    while start < n
        invariant
            n == t@.len(),
            start <= n,
            stops@ == separators(style),
            part_views(list@) + names(t@.skip(start as int), style) == part_views(old(list)@)
                + names(t@, style),
        decreases n - start,
    {
        let ghost before = list@;
        let rest = slice_subrange(t, start, n);
        assert(rest@ =~= t@.skip(start as int));
        let head = text::head_before(rest, stops.as_slice());
        let ghost k = text::stop_from(rest@, separators(style), 0);
        proof {
            text::lemma_stop_from(rest@, separators(style), 0);
            assert(head@.len() == k);
        }
        let len: usize = head.len();
        if !(len == 0 || (len == 1 && head[0] == '.')) {
            assert(head@ != seq!['.']) by {
                if head@ == seq!['.'] {
                    assert(head@[0] == '.');
                }
            }
            let name = text::text_of(head);
            list.push(Part::Name(name));
            assert(part_views(list@) =~= part_views(before).push(PartView::Name(head@)));
        } else {
            if len == 1 {
                assert(head@ =~= seq!['.']);
            }
        }
        let ghost tail = if k < rest@.len() {
            names(rest@.skip(k + 1), style)
        } else {
            seq![]
        };
        assert(part_views(before) + names(rest@, style) =~= part_views(list@) + tail);
        if len < n - start {
            assert(rest@.skip(k + 1) =~= t@.skip(start + len + 1));
            start = start + len + 1;
        } else {
            assert(t@.skip(n as int) =~= Seq::<char>::empty());
            start = n;
        }
    }
    assert(t@.skip(n as int) =~= Seq::<char>::empty());
    assert(part_views(list@) + names(Seq::<char>::empty(), style) =~= part_views(list@));
}

fn parts_of(t: &str, style: PathStyle) -> (r: Vec<Part>)
    ensures
        part_views(r@) == parts(t@, style),
{
    let chars = text::chars_of(t);
    let stops = separators_of(style);
    let mut out: Vec<Part> = Vec::new();
    let mut rest = chars.as_slice();
    assert(part_views(out@) =~= seq![]);
    if drive_of(rest, style) {
        let c = rest[0];
        let letter: char = if 'a' <= c && c <= 'z' {
            ((c as u8) - 32) as char
        } else {
            c
        };
        out.push(Part::Drive(letter));
        assert(part_views(out@) =~= seq![PartView::Drive(capital(t@[0]))]);
        rest = slice_subrange(rest, 2, rest.len());
        assert(rest@ =~= t@.skip(2));
    }
    let ghost lead = part_views(out@);
    let ghost drive_end = rest@;
    let head = text::head_before(rest, stops.as_slice());
    if rest.len() > 0 && separator(style, rest[0]) {
        out.push(Part::Root);
        assert(part_views(out@) =~= lead.push(PartView::Root));
    } else if head.len() == 1 && head[0] == '.' {
        assert(head@ =~= seq!['.']);
        out.push(Part::Here);
        assert(part_views(out@) =~= lead.push(PartView::Here));
    } else {
        assert(head@ != seq!['.']) by {
            if head@ == seq!['.'] {
                assert(head@[0] == '.');
            }
        }
    }
    push_names(&mut out, rest, style);
    assert(part_views(out@) =~= lead + parts_after_drive(drive_end, style));
    assert(seq![] + parts_after_drive(drive_end, style) =~= parts_after_drive(drive_end, style));
    out
}

/// Whether the path lies in the directory `root`, or is it, component by component.
pub fn starts_with(t: &str, root: &str, style: PathStyle) -> (r: bool)
    ensures
        r == lies_in(t@, root@, style),
{
    let whole = parts_of(t, style);
    let prefix = parts_of(root, style);
    let ghost a = parts(t@, style);
    let ghost b = parts(root@, style);
    if prefix.len() > whole.len() {
        return false;
    }
    let mut i: usize = 0;
    while i < prefix.len()
        invariant
            i <= prefix@.len() <= whole@.len(),
            a == part_views(whole@),
            b == part_views(prefix@),
            a == parts(t@, style),
            b == parts(root@, style),
            forall|j: int| 0 <= j < i ==> #[trigger] b[j] == a[j],
        decreases prefix@.len() - i,
    {
        if !prefix[i].same(&whole[i]) {
            assert(b[i as int] != a.subrange(0, b.len() as int)[i as int]);
            return false;
        }
        i += 1;
    }
    assert(b =~= a.subrange(0, b.len() as int));
    true
}

// ---------------------------------------------------------------------------
// Laws
// ---------------------------------------------------------------------------

/// A name that is one component of a path.
pub open spec fn is_plain_name(name: Seq<char>, style: PathStyle) -> bool {
    &&& name.len() > 0
    &&& name != seq!['.']
    &&& forall|i: int| 0 <= i < name.len() ==> !is_separator(style, #[trigger] name[i])
}

/// The components before a separator and those after it are the components of the whole.
proof fn lemma_names_at_separator(a: Seq<char>, sep: char, b: Seq<char>, style: PathStyle)
    requires
        is_separator(style, sep),
    ensures
        names(a.push(sep) + b, style) == names(a, style) + names(b, style),
    decreases a.len(),
{
    let t = a.push(sep) + b;
    let seps = separators(style);
    text::lemma_stop_from(t, seps, 0);
    text::lemma_stop_from(a, seps, 0);
    let k = text::stop_from(t, seps, 0);
    let n = a.len() as int;
    assert(t[n] == sep);
    assert forall|i: int| 0 <= i < n implies #[trigger] t[i] == a[i] by {}
    if exists|i: int| 0 <= i < n && seps.contains(#[trigger] a[i]) {
        let m = text::stop_from(a, seps, 0);
        assert(m < n) by {
            let i = choose|i: int| 0 <= i < n && seps.contains(#[trigger] a[i]);
            if m == n {
                assert(!seps.contains(a[i]));
            }
        }
        assert(k == m) by {
            assert(t[m] == a[m]);
            if k < m {
                assert(t[k] == a[k]);
            }
        }
        assert(t.take(k) =~= a.take(k));
        assert(t.skip(k + 1) =~= a.skip(k + 1).push(sep) + b);
        lemma_names_at_separator(a.skip(k + 1), sep, b, style);
        let head = t.take(k);
        if !(head.len() == 0 || head == seq!['.']) {
            assert(seq![PartView::Name(head)] + (names(a.skip(k + 1), style) + names(b, style))
                =~= seq![PartView::Name(head)] + names(a.skip(k + 1), style) + names(b, style));
        }
    } else {
        assert(k == n) by {
            if k < n {
                assert(seps.contains(a[k]));
            }
        }
        assert(text::stop_from(a, seps, 0) == n) by {
            let m = text::stop_from(a, seps, 0);
            if m < n {
                assert(seps.contains(a[m]));
            }
        }
        assert(t.take(k) =~= a);
        assert(a.take(n) =~= a);
        assert(t.skip(k + 1) =~= b);
        if a.len() > 0 {
            if a == seq!['.'] {
                assert(names(a, style) =~= Seq::<PartView>::empty());
                assert(names(a, style) + names(b, style) =~= names(b, style));
            } else {
                assert(names(a, style) =~= seq![PartView::Name(a)]);
            }
        } else {
            assert(names(a, style) + names(b, style) =~= names(b, style));
        }
    }
}

proof fn lemma_names_of_plain(name: Seq<char>, style: PathStyle)
    requires
        is_plain_name(name, style),
    ensures
        names(name, style) == seq![PartView::Name(name)],
{
    let seps = separators(style);
    text::lemma_stop_from(name, seps, 0);
    let m = text::stop_from(name, seps, 0);
    assert(m == name.len()) by {
        if m < name.len() {
            assert(!is_separator(style, name[m]));
        }
    }
    assert(name.take(m) =~= name);
    assert(names(name, style) =~= seq![PartView::Name(name)]);
}

/// What follows the drive, with a name joined to it.
proof fn lemma_parts_joined(rest: Seq<char>, name: Seq<char>, style: PathStyle)
    requires
        rest.len() > 0,
        is_plain_name(name, style),
    ensures
        ({
            let whole = if is_separator(style, rest.last()) {
                rest + name
            } else {
                rest.push(separators(style)[0]) + name
            };
            parts_after_drive(whole, style) == parts_after_drive(rest, style).push(
                PartView::Name(name),
            )
        }),
{
    let seps = separators(style);
    let sep = seps[0];
    let whole = if is_separator(style, rest.last()) {
        rest + name
    } else {
        rest.push(sep) + name
    };
    assert(is_separator(style, sep));
    lemma_names_of_plain(name, style);
    if is_separator(style, rest.last()) {
        let front = rest.drop_last();
        let none = Seq::<char>::empty();
        assert(whole =~= front.push(rest.last()) + name);
        assert(rest =~= front.push(rest.last()) + none);
        lemma_names_at_separator(front, rest.last(), name, style);
        lemma_names_at_separator(front, rest.last(), none, style);
        assert(names(front, style) + names(none, style) =~= names(front, style));
    } else {
        lemma_names_at_separator(rest, sep, name, style);
    }
    assert(names(whole, style) =~= names(rest, style).push(PartView::Name(name)));
    assert(whole[0] == rest[0]);
    text::lemma_stop_from(whole, seps, 0);
    text::lemma_stop_from(rest, seps, 0);
    let k = text::stop_from(whole, seps, 0);
    let m = text::stop_from(rest, seps, 0);
    let n = rest.len() as int;
    assert forall|i: int| 0 <= i < n implies #[trigger] whole[i] == rest[i] by {}
    assert(k == m) by {
        if m < n {
            assert(seps.contains(whole[m]));
            if k < m {
                assert(seps.contains(rest[k]));
            }
        } else {
            assert(!seps.contains(rest[n - 1]));
            assert(whole[n] == sep);
            assert(seps.contains(whole[n]));
            if k < n {
                assert(seps.contains(rest[k]));
            }
        }
    }
    assert(whole.take(k) =~= rest.take(m));
    if is_separator(style, rest[0]) {
        assert(parts_after_drive(whole, style) =~= parts_after_drive(rest, style).push(
            PartView::Name(name),
        ));
    } else if text::before_stop(rest, seps) == seq!['.'] {
        assert(parts_after_drive(whole, style) =~= parts_after_drive(rest, style).push(
            PartView::Name(name),
        ));
    }
}

/// A name joined to a path is its last component, behind the components of the path.
pub proof fn law_joined_name_is_the_last_component(
    base: Seq<char>,
    style: PathStyle,
    name: Seq<char>,
)
    requires
        base.len() > 0,
        is_plain_name(name, style),
    ensures
        parts(within(base, style, name), style) == parts(base, style).push(PartView::Name(name)),
{
    let whole = within(base, style, name);
    assert(whole[0] == base[0]);
    if has_drive(base, style) {
        assert(whole[1] == base[1]);
        let rest = base.skip(2);
        if base.len() == 2 {
            assert(whole.skip(2) =~= name);
            lemma_names_of_plain(name, style);
            assert(!is_separator(style, name[0]));
            text::lemma_stop_from(name, separators(style), 0);
            let m = text::stop_from(name, separators(style), 0);
            if m < name.len() {
                assert(!is_separator(style, name[m]));
            }
            assert(name.take(m) =~= name);
            assert(rest =~= Seq::<char>::empty());
            text::lemma_stop_from(rest, separators(style), 0);
            assert(text::before_stop(rest, separators(style)).len() == 0);
            assert(parts_after_drive(rest, style) =~= Seq::<PartView>::empty());
            assert(parts(whole, style) =~= parts(base, style).push(PartView::Name(name)));
        } else {
            assert(rest.last() == base.last());
            lemma_parts_joined(rest, name, style);
            if is_separator(style, base.last()) {
                assert(whole.skip(2) =~= rest + name);
            } else {
                assert(whole.skip(2) =~= rest.push(separators(style)[0]) + name);
            }
            assert(parts(whole, style) =~= parts(base, style).push(PartView::Name(name)));
        }
    } else {
        lemma_parts_joined(base, name, style);
        assert(!has_drive(whole, style)) by {
            if style == PathStyle::Windows {
                assert(is_separator(style, '\\')) by {
                    assert(separators(style)[0] == '\\');
                }
                assert(is_separator(style, '/')) by {
                    assert(separators(style)[1] == '/');
                }
                if base.len() >= 2 {
                    assert(whole[1] == base[1]);
                } else if is_separator(style, base.last()) {
                    let seps = separators(style);
                    assert(seps[0] == '\\' && seps[1] == '/' && seps.len() == 2);
                    let i = choose|i: int| 0 <= i < seps.len() && seps[i] == base[0];
                    assert(base[0] == '\\' || base[0] == '/');
                } else {
                    assert(whole[1] == '\\');
                }
            }
        }
    }
}

/// What is joined to a directory lies in it, the directory does not lie in what is joined to it,
/// and of two names in one directory neither lies in the other unless they are the same: one that
/// is only the start of the other does not count.
pub proof fn law_directory_holds_what_is_joined_to_it(
    base: Seq<char>,
    style: PathStyle,
    a: Seq<char>,
    b: Seq<char>,
)
    requires
        base.len() > 0,
        is_plain_name(a, style),
        is_plain_name(b, style),
    ensures
        lies_in(within(base, style, a), base, style),
        lies_in(base, base, style),
        !lies_in(base, within(base, style, a), style),
        lies_in(within(base, style, a), within(base, style, b), style) <==> a == b,
{
    law_joined_name_is_the_last_component(base, style, a);
    law_joined_name_is_the_last_component(base, style, b);
    let p = parts(base, style);
    let pa = p.push(PartView::Name(a));
    let pb = p.push(PartView::Name(b));
    let n = p.len() as int;
    assert(pa.subrange(0, n) =~= p);
    assert(p.subrange(0, n) =~= p);
    assert(pa.subrange(0, n + 1) =~= pa);
    assert(pa[n] == PartView::Name(a) && pb[n] == PartView::Name(b));
}

/// A drive is the same in capitals and not; only Windows has drives.
pub proof fn law_drive_is_the_same_in_capitals(small: char, large: char, rest: Seq<char>)
    requires
        'a' <= small <= 'z',
        small as u32 == large as u32 + 32,
    ensures
        parts(seq![small, ':'] + rest, PathStyle::Windows) == parts(
            seq![large, ':'] + rest,
            PathStyle::Windows,
        ),
        parts(seq![small, ':'] + rest, PathStyle::Windows).len() > 0,
        parts(seq![small, ':'] + rest, PathStyle::Windows)[0] == PartView::Drive(large),
        !has_drive(seq![small, ':'] + rest, PathStyle::Unix),
        has_drive(rest, PathStyle::Windows) ==> 'a' <= rest[0] <= 'z' || 'A' <= rest[0] <= 'Z',
{
    let a = seq![small, ':'] + rest;
    let b = seq![large, ':'] + rest;
    assert(a[0] == small && a[1] == ':' && b[0] == large && b[1] == ':');
    assert(a.skip(2) =~= rest);
    assert(b.skip(2) =~= rest);
    assert(capital(small) == large) by {
        let n = large as u32;
        assert(n as char == large);
        assert(small as u32 - 32 == n);
    }
}

} // verus!
