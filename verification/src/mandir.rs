//! Catalogue model for installed manual pages: which sections and
//! subsections exist, their human-readable titles, and where a page's
//! rendered file may sit. The filesystem itself is read elsewhere; this
//! module holds the names, keeps them ordered, and does the lookups.

use vstd::prelude::*;
use vstd::string::StrSliceExecFns;

verus! {

/// The character sequences of a list of strings.
pub open spec fn views(l: Seq<String>) -> Seq<Seq<char>> {
    l.map_values(|s: String| s@)
}

/// The character sequences of a list of string pairs.
pub open spec fn pair_views(l: Seq<(String, String)>) -> Seq<(Seq<char>, Seq<char>)> {
    l.map_values(|p: (String, String)| (p.0@, p.1@))
}

/// Lexicographic order on character sequences by code point, the order in
/// which `str` compares: the order of a sorted set of section names.
pub open spec fn chars_le(a: Seq<char>, b: Seq<char>) -> bool
    decreases a.len(),
{
    if a.len() == 0 {
        true
    } else if b.len() == 0 {
        false
    } else if a.first() == b.first() {
        chars_le(a.drop_first(), b.drop_first())
    } else {
        (a.first() as int) < (b.first() as int)
    }
}

/// Strict form of the lexicographic order.
pub open spec fn chars_lt(a: Seq<char>, b: Seq<char>) -> bool {
    chars_le(a, b) && a != b
}

/// `p` is a prefix of `s`.
pub open spec fn starts_with(s: Seq<char>, p: Seq<char>) -> bool {
    p.len() <= s.len() && s.subrange(0, p.len() as int) == p
}

/// Strictly increasing, hence duplicate-free: the shape of a sorted set of
/// names.
pub open spec fn sorted_unique(l: Seq<Seq<char>>) -> bool {
    forall|i: int, j: int| 0 <= i < j < l.len() ==> chars_lt(#[trigger] l[i], #[trigger] l[j])
}

pub proof fn lemma_chars_le_total(a: Seq<char>, b: Seq<char>)
    ensures
        chars_le(a, b) || chars_le(b, a),
    decreases a.len(),
{
    if a.len() > 0 && b.len() > 0 {
        if a.first() == b.first() {
            lemma_chars_le_total(a.drop_first(), b.drop_first());
        } else {
            assert((a.first() as int) != (b.first() as int));
        }
    }
}

pub proof fn lemma_chars_le_antisymmetric(a: Seq<char>, b: Seq<char>)
    requires
        chars_le(a, b),
        chars_le(b, a),
    ensures
        a == b,
    decreases a.len(),
{
    if a.len() == 0 {
        assert(b.len() == 0);
        assert(a =~= b);
    } else {
        assert(b.len() > 0);
        assert(a.first() == b.first());
        lemma_chars_le_antisymmetric(a.drop_first(), b.drop_first());
        assert(a =~= seq![a.first()] + a.drop_first());
        assert(b =~= seq![b.first()] + b.drop_first());
    }
}

pub proof fn lemma_chars_le_transitive(a: Seq<char>, b: Seq<char>, c: Seq<char>)
    requires
        chars_le(a, b),
        chars_le(b, c),
    ensures
        chars_le(a, c),
    decreases a.len(),
{
    if a.len() > 0 && b.len() > 0 && c.len() > 0 {
        if a.first() == b.first() && b.first() == c.first() {
            lemma_chars_le_transitive(a.drop_first(), b.drop_first(), c.drop_first());
        }
    }
}

/// Strict transitivity, in the form the sortedness proofs use.
pub proof fn lemma_chars_lt_transitive(a: Seq<char>, b: Seq<char>, c: Seq<char>)
    requires
        chars_lt(a, b),
        chars_lt(b, c),
    ensures
        chars_lt(a, c),
{
    lemma_chars_le_transitive(a, b, c);
    if a == c {
        lemma_chars_le_antisymmetric(a, b);
    }
}

/// Comparing suffixes after an equal prefix compares the whole strings.
proof fn lemma_chars_le_skip(a: Seq<char>, b: Seq<char>, i: int)
    requires
        0 <= i <= a.len(),
        i <= b.len(),
        forall|j: int| 0 <= j < i ==> a[j] == b[j],
    ensures
        chars_le(a, b) == chars_le(a.skip(i), b.skip(i)),
    decreases i,
{
    if i > 0 {
        assert(a.len() > 0 && b.len() > 0 && a.first() == b.first());
        lemma_chars_le_skip(a.drop_first(), b.drop_first(), i - 1);
        assert(a.drop_first().skip(i - 1) =~= a.skip(i));
        assert(b.drop_first().skip(i - 1) =~= b.skip(i));
    } else {
        assert(a.skip(0) =~= a);
        assert(b.skip(0) =~= b);
    }
}

/// Executable lexicographic comparison of two strings, matching
/// `chars_le` on their views.
fn str_le(a: &str, b: &str) -> (r: bool)
    ensures
        r == chars_le(a@, b@),
{
    let alen = a.unicode_len();
    let blen = b.unicode_len();
    let mut i: usize = 0;
    while i < alen && i < blen
        invariant
            alen == a@.len(),
            blen == b@.len(),
            0 <= i <= alen,
            i <= blen,
            forall|j: int| 0 <= j < i ==> a@[j] == b@[j],
        decreases alen - i,
    {
        let ca = a.get_char(i);
        let cb = b.get_char(i);
        if ca != cb {
            proof {
                lemma_chars_le_skip(a@, b@, i as int);
                assert(a@.skip(i as int).first() == ca);
                assert(b@.skip(i as int).first() == cb);
            }
            return ca < cb;
        }
        i = i + 1;
    }
    proof {
        lemma_chars_le_skip(a@, b@, i as int);
    }
    if i >= alen {
        proof {
            assert(a@.skip(i as int).len() == 0);
        }
        true
    } else {
        proof {
            assert(b@.skip(i as int).len() == 0);
            assert(a@.skip(i as int).len() > 0);
        }
        false
    }
}

/// Whether `p` is a prefix of `s`, matching `starts_with` on the views.
fn str_starts_with(s: &str, p: &str) -> (r: bool)
    ensures
        r == starts_with(s@, p@),
{
    let slen = s.unicode_len();
    let plen = p.unicode_len();
    if plen > slen {
        return false;
    }
    let mut i: usize = 0;
    while i < plen
        invariant
            slen == s@.len(),
            plen == p@.len(),
            plen <= slen,
            0 <= i <= plen,
            forall|j: int| 0 <= j < i ==> a_char_at(s@, j) == p@[j],
        decreases plen - i,
    {
        if s.get_char(i) != p.get_char(i) {
            proof {
                assert(s@.subrange(0, p@.len() as int)[i as int] != p@[i as int]);
            }
            return false;
        }
        i = i + 1;
    }
    proof {
        assert(s@.subrange(0, p@.len() as int) =~= p@);
    }
    true
}

/// The character of `s` at position `j`, in a form the prefix and suffix
/// loops can use as a quantifier trigger.
spec fn a_char_at(s: Seq<char>, j: int) -> char {
    s[j]
}

/// The first title listed under `name`, if any: what a catalogue lookup
/// returns.
pub open spec fn title_for(entries: Seq<(Seq<char>, Seq<char>)>, name: Seq<char>) -> Option<
    Seq<char>,
>
    decreases entries.len(),
{
    if entries.len() == 0 {
        None
    } else if entries.first().0 == name {
        Some(entries.first().1)
    } else {
        title_for(entries.drop_first(), name)
    }
}

/// The view of an optional title.
pub open spec fn opt_text(o: Option<String>) -> Option<Seq<char>> {
    match o {
        Some(s) => Some(s@),
        None => None,
    }
}

/// Find the first title listed under `name` in a catalogue table.
fn lookup_title(entries: &Vec<(String, String)>, name: &String) -> (r: Option<String>)
    ensures
        opt_text(r) == title_for(pair_views(entries@), name@),
{
    let ghost pairs = pair_views(entries@);
    proof {
        assert(pairs.skip(0int) =~= pairs);
    }
    let mut k: usize = 0;
    while k < entries.len()
        invariant
            0 <= k <= entries@.len(),
            pairs == pair_views(entries@),
            pairs.len() == entries@.len(),
            title_for(pairs, name@) == title_for(pairs.skip(k as int), name@),
            forall|j: int| 0 <= j < pairs.len() ==> #[trigger] pairs[j] == (entries@[j].0@, entries@[j].1@),
        decreases entries@.len() - k,
    {
        if entries[k].0 == *name {
            let t = entries[k].1.clone();
            proof {
                assert(pairs.skip(k as int).len() > 0);
                assert(pairs.skip(k as int)[0] == pairs[k as int]);
                assert(pairs.skip(k as int).first().0 == name@);
                assert(title_for(pairs.skip(k as int), name@) == Some(pairs[k as int].1));
                assert(title_for(pairs.skip(k as int), name@) == Some(entries@[k as int].1@));
            }
            return Some(t);
        }
        proof {
            assert(pairs.skip(k as int).len() > 0);
            assert(pairs.skip(k as int)[0] == pairs[k as int]);
            assert(pairs.skip(k as int).first().0 != name@);
            assert(title_for(pairs.skip(k as int), name@) == title_for(
                pairs.skip(k as int).drop_first(),
                name@,
            ));
            assert(pairs.skip(k as int).drop_first() =~= pairs.skip(k as int + 1));
        }
        k = k + 1;
    }
    proof {
        assert(pairs.skip(k as int).len() == 0);
    }
    None
}

/// The catalogue: names paired with human-readable titles, one table for
/// sections and one for subsections.
#[derive(Debug)]
pub struct Catalogue {
    pub sections: Vec<(String, String)>,
    pub subsections: Vec<(String, String)>,
}

/// What a directory scan reports about one entry: its name and whether it
/// is a directory.
#[derive(Debug)]
pub struct MandirEntry {
    pub name: String,
    pub is_dir: bool,
}

/// Why a page lookup is refused.
#[derive(Debug, Clone, Copy, PartialEq, Eq, Structural)]
pub enum MandirError {
    UnknownSection,
    InvalidPage,
}

/// One section of the table of contents.
#[derive(Debug)]
pub struct TocSection {
    pub name: String,
    pub title: Option<String>,
    pub subsections: Vec<TocSubsection>,
}

/// One subsection of the table of contents.
#[derive(Debug)]
pub struct TocSubsection {
    pub name: String,
    pub title: Option<String>,
}

/// The subsection names that belong under a section, in stored order: the
/// ones the section's name prefixes.
pub open spec fn matching_subsections(subs: Seq<Seq<char>>, sect: Seq<char>) -> Seq<Seq<char>>
    decreases subs.len(),
{
    if subs.len() == 0 {
        Seq::<Seq<char>>::empty()
    } else {
        let rest = matching_subsections(subs.drop_last(), sect);
        if starts_with(subs.last(), sect) {
            rest.push(subs.last())
        } else {
            rest
        }
    }
}

/// Insert a name into a strictly sorted list unless it is already there,
/// keeping the list sorted: adding to an ordered set of names.
fn insert_unique_sorted(v: &mut Vec<String>, s: String)
    requires
        sorted_unique(views(old(v)@)),
    ensures
        sorted_unique(views(final(v)@)),
        views(final(v)@).to_set() == views(old(v)@).to_set().insert(s@),
{
    let ghost vs0 = views(old(v)@);
    let mut i: usize = 0;
    while i < v.len() && str_lt(v[i].as_str(), s.as_str())
        invariant
            0 <= i <= v@.len(),
            views(v@) == vs0,
            vs0.len() == v@.len(),
            forall|j: int| 0 <= j < i ==> chars_lt(#[trigger] vs0[j], s@),
        decreases v@.len() - i,
    {
        proof {
            assert(vs0[i as int] == v@[i as int]@);
        }
        i = i + 1;
    }
    if i < v.len() && v[i] == s {
        proof {
            assert(vs0[i as int] == v@[i as int]@);
            assert(vs0.contains(s@));
            assert(vs0.to_set() =~= vs0.to_set().insert(s@));
        }
        return ;
    }
    proof {
        if i < v@.len() {
            assert(vs0[i as int] == v@[i as int]@);
            lemma_chars_le_total(vs0[i as int], s@);
            assert(chars_lt(s@, vs0[i as int]));
        }
    }
    v.insert(i, s);
    proof {
        let w = views(v@);
        assert(w =~= vs0.insert(i as int, s@));
        assert forall|p: int, q: int| 0 <= p < q < w.len() implies chars_lt(w[p], w[q]) by {
            let iw = i as int;
            if q < iw {
                assert(w[p] == vs0[p] && w[q] == vs0[q]);
            } else if p < iw && q == iw {
                assert(w[p] == vs0[p] && w[q] == s@);
            } else if p < iw && q > iw {
                assert(w[p] == vs0[p] && w[q] == vs0[q - 1]);
                assert(chars_lt(vs0[p], vs0[q - 1]));
            } else if p == iw {
                assert(w[p] == s@ && w[q] == vs0[q - 1]);
                assert(chars_lt(s@, vs0[iw]));
                if q - 1 > iw {
                    lemma_chars_lt_transitive(s@, vs0[iw], vs0[q - 1]);
                }
            } else {
                assert(w[p] == vs0[p - 1] && w[q] == vs0[q - 1]);
            }
        }
        assert forall|x: Seq<char>| #[trigger] w.contains(x) implies (vs0.contains(x) || x
            == s@) by {
            let k = choose|k: int| 0 <= k < w.len() && w[k] == x;
            if k < i as int {
                assert(vs0[k] == x);
            } else if k > i as int {
                assert(vs0[k - 1] == x);
            }
        }
        assert forall|x: Seq<char>| vs0.contains(x) implies #[trigger] w.contains(x) by {
            let k = choose|k: int| 0 <= k < vs0.len() && vs0[k] == x;
            if k < i as int {
                assert(w[k] == x);
            } else {
                assert(w[k + 1] == x);
            }
        }
        assert(w[i as int] == s@);
        assert(w.contains(s@));
        assert(w.to_set() =~= vs0.to_set().insert(s@));
    }
}

/// The section name a matching entry contributes: the character after
/// `man`.
pub open spec fn entry_section(e: MandirEntry) -> Seq<char> {
    e.name@.subrange(3, 4)
}

/// The subsection name a matching entry contributes: everything after
/// `man`.
pub open spec fn entry_subsection(e: MandirEntry) -> Seq<char> {
    e.name@.skip(3)
}

/// Whether a directory entry names a section directory: a directory
/// called `man` followed by at least one character.
pub open spec fn entry_matches(e: MandirEntry) -> bool {
    e.is_dir && e.name@.len() >= 4 && starts_with(e.name@, seq!['m', 'a', 'n'])
}

/// The set of section names a list of directory entries contributes.
pub open spec fn entry_sections(entries: Seq<MandirEntry>) -> Set<Seq<char>> {
    Set::new(
        |s: Seq<char>|
            exists|k: int|
                0 <= k < entries.len() && entry_matches(#[trigger] entries[k]) && s
                    == entry_section(entries[k]),
    )
}

/// The set of subsection names a list of directory entries contributes.
pub open spec fn entry_subsections(entries: Seq<MandirEntry>) -> Set<Seq<char>> {
    Set::new(
        |s: Seq<char>|
            exists|k: int|
                0 <= k < entries.len() && entry_matches(#[trigger] entries[k]) && s
                    == entry_subsection(entries[k]),
    )
}

/// The catalogue plus what directory scans have reported: the ordered sets
/// of section and subsection names, the manual directories seen, and the
/// formatter's path.
#[derive(Debug)]
pub struct Mandir {
    cat: Catalogue,
    manpath: Vec<String>,
    mandoc: String,
    sections: Vec<String>,
    subsections: Vec<String>,
}

impl Mandir {
    /// The stored section names, in order.
    pub closed spec fn section_names(&self) -> Seq<Seq<char>> {
        views(self.sections@)
    }

    /// The stored subsection names, in order.
    pub closed spec fn subsection_names(&self) -> Seq<Seq<char>> {
        views(self.subsections@)
    }

    /// The catalogue's section-title table.
    pub closed spec fn section_titles(&self) -> Seq<(Seq<char>, Seq<char>)> {
        pair_views(self.cat.sections@)
    }

    /// The catalogue's subsection-title table.
    pub closed spec fn subsection_titles(&self) -> Seq<(Seq<char>, Seq<char>)> {
        pair_views(self.cat.subsections@)
    }

    /// The manual directories added so far, in order.
    pub closed spec fn manpaths(&self) -> Seq<Seq<char>> {
        views(self.manpath@)
    }

    /// The path of the external formatter.
    pub closed spec fn mandoc_path(&self) -> Seq<char> {
        self.mandoc@
    }

    /// Well-formedness: both name lists are strictly sorted, hence
    /// duplicate-free.
    pub open spec fn wf(&self) -> bool {
        sorted_unique(self.section_names()) && sorted_unique(self.subsection_names())
    }

    /// A fresh catalogue model: the given title tables, no directories
    /// scanned yet.
    pub fn new(cat: Catalogue, mandoc: String) -> (m: Mandir)
        ensures
            m.wf(),
            m.section_names().len() == 0,
            m.subsection_names().len() == 0,
            m.manpaths().len() == 0,
            m.mandoc_path() == mandoc@,
            m.section_titles() == pair_views(cat.sections@),
            m.subsection_titles() == pair_views(cat.subsections@),
    {
        Mandir {
            cat,
            manpath: Vec::new(),
            mandoc,
            sections: Vec::new(),
            subsections: Vec::new(),
        }
    }

    /// Record one manual directory and the entries a scan of it reported:
    /// every subdirectory `manX...` contributes section `X` and
    /// subsection `X...` to the ordered name sets.
    pub fn add_mandir(&mut self, manpath: String, entries: Vec<MandirEntry>)
        requires
            old(self).wf(),
        ensures
            final(self).wf(),
            final(self).manpaths() == old(self).manpaths().push(manpath@),
            final(self).section_names().to_set() == old(self).section_names().to_set().union(
                entry_sections(entries@),
            ),
            final(self).subsection_names().to_set() == old(self).subsection_names().to_set().union(
                entry_subsections(entries@),
            ),
            final(self).section_titles() == old(self).section_titles(),
            final(self).subsection_titles() == old(self).subsection_titles(),
            final(self).mandoc_path() == old(self).mandoc_path(),
    {
        let ghost secs0 = old(self).section_names().to_set();
        let ghost subs0 = old(self).subsection_names().to_set();
        let mut k: usize = 0;
        while k < entries.len()
            invariant
                0 <= k <= entries@.len(),
                sorted_unique(self.section_names()),
                sorted_unique(self.subsection_names()),
                self.section_names().to_set() == secs0.union(
                    entry_sections(entries@.take(k as int)),
                ),
                self.subsection_names().to_set() == subs0.union(
                    entry_subsections(entries@.take(k as int)),
                ),
                self.section_titles() == old(self).section_titles(),
                self.subsection_titles() == old(self).subsection_titles(),
                self.mandoc_path() == old(self).mandoc_path(),
                self.manpaths() == old(self).manpaths(),
            decreases entries@.len() - k,
        {
            let ghost pre = entries@.take(k as int);
            let ghost post = entries@.take(k as int + 1);
            proof {
                assert(post.drop_last() =~= pre);
                assert(post.last() == entries@[k as int]);
            }
            let e = &entries[k];
            let is_man = e.name.as_str().unicode_len() >= 4 && str_starts_with(
                e.name.as_str(),
                "man",
            );
            if e.is_dir && is_man {
                proof {
                    reveal_strlit("man");
                    assert(("man")@ =~= seq!['m', 'a', 'n']);
                    assert(entry_matches(entries@[k as int]));
                }
                let sec = e.name.as_str().substring_char(3, 4).to_owned();
                let sub = e.name.as_str().substring_char(3, e.name.as_str().unicode_len())
                    .to_owned();
                proof {
                    assert(sec@ == entry_section(entries@[k as int]));
                    assert(sub@ =~= entry_subsection(entries@[k as int]));
                }
                insert_unique_sorted(&mut self.sections, sec);
                insert_unique_sorted(&mut self.subsections, sub);
                proof {
                    let es = entry_section(entries@[k as int]);
                    let eu = entry_subsection(entries@[k as int]);
                    assert(entry_sections(post) =~= entry_sections(pre).insert(es)) by {
                        assert forall|x: Seq<char>| entry_sections(post).contains(x) implies (
                        entry_sections(pre).contains(x) || x == es) by {
                            let j = choose|j: int|
                                0 <= j < post.len() && entry_matches(#[trigger] post[j]) && x
                                    == entry_section(post[j]);
                            if j < k as int {
                                assert(pre[j] == post[j]);
                                assert(entry_matches(pre[j]) && x == entry_section(pre[j]));
                            }
                        }
                        assert forall|x: Seq<char>|
                            entry_sections(pre).contains(x) implies entry_sections(post).contains(
                            x,
                        ) by {
                            let j = choose|j: int|
                                0 <= j < pre.len() && entry_matches(#[trigger] pre[j]) && x
                                    == entry_section(pre[j]);
                            assert(post[j] == pre[j]);
                        }
                        assert(entry_matches(post[k as int]));
                        assert(entry_sections(post).contains(es));
                    }
                    assert(entry_subsections(post) =~= entry_subsections(pre).insert(eu)) by {
                        assert forall|x: Seq<char>| entry_subsections(post).contains(x) implies (
                        entry_subsections(pre).contains(x) || x == eu) by {
                            let j = choose|j: int|
                                0 <= j < post.len() && entry_matches(#[trigger] post[j]) && x
                                    == entry_subsection(post[j]);
                            if j < k as int {
                                assert(pre[j] == post[j]);
                                assert(entry_matches(pre[j]) && x == entry_subsection(pre[j]));
                            }
                        }
                        assert forall|x: Seq<char>|
                            entry_subsections(pre).contains(
                                x,
                            ) implies entry_subsections(post).contains(x) by {
                            let j = choose|j: int|
                                0 <= j < pre.len() && entry_matches(#[trigger] pre[j]) && x
                                    == entry_subsection(pre[j]);
                            assert(post[j] == pre[j]);
                        }
                        assert(entry_matches(post[k as int]));
                        assert(entry_subsections(post).contains(eu));
                    }
                    assert(self.section_names().to_set() =~= secs0.union(entry_sections(post)));
                    assert(self.subsection_names().to_set() =~= subs0.union(
                        entry_subsections(post),
                    ));
                }
            } else {
                proof {
                    reveal_strlit("man");
                    assert(("man")@ =~= seq!['m', 'a', 'n']);
                    assert(!entry_matches(entries@[k as int]));
                    assert(entry_sections(post) =~= entry_sections(pre)) by {
                        assert forall|x: Seq<char>|
                            entry_sections(post).contains(x) implies entry_sections(pre).contains(
                            x,
                        ) by {
                            let j = choose|j: int|
                                0 <= j < post.len() && entry_matches(#[trigger] post[j]) && x
                                    == entry_section(post[j]);
                            assert(j < k as int);
                            assert(pre[j] == post[j]);
                            assert(entry_matches(pre[j]) && x == entry_section(pre[j]));
                        }
                        assert forall|x: Seq<char>|
                            entry_sections(pre).contains(x) implies entry_sections(post).contains(
                            x,
                        ) by {
                            let j = choose|j: int|
                                0 <= j < pre.len() && entry_matches(#[trigger] pre[j]) && x
                                    == entry_section(pre[j]);
                            assert(post[j] == pre[j]);
                        }
                    }
                    assert(entry_subsections(post) =~= entry_subsections(pre)) by {
                        assert forall|x: Seq<char>|
                            entry_subsections(post).contains(
                                x,
                            ) implies entry_subsections(pre).contains(x) by {
                            let j = choose|j: int|
                                0 <= j < post.len() && entry_matches(#[trigger] post[j]) && x
                                    == entry_subsection(post[j]);
                            assert(j < k as int);
                            assert(pre[j] == post[j]);
                            assert(entry_matches(pre[j]) && x == entry_subsection(pre[j]));
                        }
                        assert forall|x: Seq<char>|
                            entry_subsections(pre).contains(
                                x,
                            ) implies entry_subsections(post).contains(x) by {
                            let j = choose|j: int|
                                0 <= j < pre.len() && entry_matches(#[trigger] pre[j]) && x
                                    == entry_subsection(pre[j]);
                            assert(post[j] == pre[j]);
                        }
                    }
                }
            }
            k = k + 1;
        }
        proof {
            assert(entries@.take(k as int) =~= entries@);
        }
        self.manpath.push(manpath);
        proof {
            assert(self.manpaths() =~= old(self).manpaths().push(manpath@));
        }
    }

    /// The table of contents: one entry per stored section, in order, with
    /// its title looked up in the catalogue and the subsections its name
    /// prefixes, each with its own title. Always succeeds.
    pub fn index(&self) -> (r: Result<Vec<TocSection>, MandirError>)
        ensures
            r is Ok,
            r->Ok_0@.len() == self.section_names().len(),
            forall|i: int|
                0 <= i < r->Ok_0@.len() ==> self.section_entry_ok(i, #[trigger] r->Ok_0@[i]),
    {
        let mut out: Vec<TocSection> = Vec::new();
        let mut i: usize = 0;
        while i < self.sections.len()
            invariant
                0 <= i <= self.sections@.len(),
                out@.len() == i,
                forall|p: int| 0 <= p < i ==> self.section_entry_ok(p, #[trigger] out@[p]),
            decreases self.sections@.len() - i,
        {
            let name = self.sections[i].clone();
            proof {
                assert(name@ == self.section_names()[i as int]);
            }
            let title = lookup_title(&self.cat.sections, &name);
            let ghost vsubs = self.subsection_names();
            let mut subs: Vec<TocSubsection> = Vec::new();
            let mut j: usize = 0;
            while j < self.subsections.len()
                invariant
                    0 <= j <= self.subsections@.len(),
                    vsubs == self.subsection_names(),
                    vsubs.len() == self.subsections@.len(),
                    subs@.len() == matching_subsections(vsubs.take(j as int), name@).len(),
                    forall|q: int|
                        0 <= q < subs@.len() ==> (#[trigger] subs@[q]).name@
                            == matching_subsections(vsubs.take(j as int), name@)[q],
                    forall|q: int|
                        0 <= q < subs@.len() ==> opt_text((#[trigger] subs@[q]).title) == title_for(
                            self.subsection_titles(),
                            matching_subsections(vsubs.take(j as int), name@)[q],
                        ),
                decreases self.subsections@.len() - j,
            {
                let ghost wpre = matching_subsections(vsubs.take(j as int), name@);
                proof {
                    assert(vsubs.take(j as int + 1).drop_last() =~= vsubs.take(j as int));
                    assert(vsubs.take(j as int + 1).last() == vsubs[j as int]);
                    assert(vsubs[j as int] == self.subsections@[j as int]@);
                }
                let ss = &self.subsections[j];
                if str_starts_with(ss.as_str(), name.as_str()) {
                    let t = lookup_title(&self.cat.subsections, ss);
                    subs.push(TocSubsection { name: ss.clone(), title: t });
                }
                j = j + 1;
            }
            proof {
                assert(vsubs.take(j as int) =~= vsubs);
            }
            out.push(TocSection { name, title, subsections: subs });
            i = i + 1;
        }
        Ok(out)
    }

    /// The page names under one section: each scanned entry name with
    /// every trailing `.sect` suffix removed, sorted. The caller supplies
    /// the names its scan of the section's directories found, in any
    /// order; duplicates are kept.
    pub fn pages(&self, sect: &str, names: Vec<String>) -> (r: Vec<String>)
        ensures
            sorted(views(r@)),
            views(r@).to_multiset() == stripped(names@, sect@).to_multiset(),
    {
        broadcast use vstd::seq_lib::group_to_multiset_ensures;

        let mut trailer = String::new();
        trailer.append(".");
        trailer.append(sect);
        proof {
            reveal_strlit(".");
            assert(trailer@ =~= seq!['.'] + sect@);
            assert(stripped(names@.take(0int), sect@) =~= Seq::<Seq<char>>::empty());
            assert(views(Seq::<String>::empty()) =~= Seq::<Seq<char>>::empty());
        }
        let mut out: Vec<String> = Vec::new();
        let mut k: usize = 0;
        while k < names.len()
            invariant
                0 <= k <= names@.len(),
                trailer@ == seq!['.'] + sect@,
                trailer@.len() >= 1,
                sorted(views(out@)),
                views(out@).to_multiset() == stripped(names@.take(k as int), sect@).to_multiset(),
            decreases names@.len() - k,
        {
            broadcast use vstd::seq_lib::group_to_multiset_ensures;

            let p = strip_trailer_exec(names[k].as_str(), trailer.as_str());
            let ghost pv = p@;
            insert_sorted(&mut out, p);
            k = k + 1;
            proof {
                let pre = stripped(names@.take(k as int - 1), sect@);
                let post = stripped(names@.take(k as int), sect@);
                assert(pv == strip_trailer(names@[k - 1]@, seq!['.'] + sect@));
                assert(post =~= pre.push(pv));
                assert(post.to_multiset() =~= pre.to_multiset().insert(pv));
            }
        }
        proof {
            assert(names@.take(k as int) =~= names@);
        }
        out
    }

    /// Whether a name is one of the stored subsection names.
    fn contains_subsection(&self, s: &String) -> (r: bool)
        ensures
            r == self.subsection_names().contains(s@),
    {
        let mut k: usize = 0;
        while k < self.subsections.len()
            invariant
                0 <= k <= self.subsections@.len(),
                forall|j: int| 0 <= j < k ==> self.subsection_names()[j] != s@,
            decreases self.subsections@.len() - k,
        {
            if self.subsections[k] == *s {
                proof {
                    assert(self.subsection_names()[k as int] == s@);
                }
                return true;
            }
            proof {
                assert(self.subsection_names()[k as int] == self.subsections@[k as int]@);
            }
            k = k + 1;
        }
        proof {
            assert forall|j: int|
                0 <= j < self.subsection_names().len() implies self.subsection_names()[j]
                != s@ by {}
        }
        false
    }

    /// The paths at which a page's source may sit, in search order. A
    /// named section must be a known subsection, and a page name must not
    /// contain a path separator; the search covers the named section
    /// alone, or every known subsection.
    pub fn lookup(&self, sect: Option<&str>, page: &str) -> (r: Result<Vec<String>, MandirError>)
        ensures
            match r {
                Err(MandirError::UnknownSection) => sect is Some && !self.subsection_names()
                    .contains(sect->0@),
                Err(MandirError::InvalidPage) => (sect is None || self.subsection_names().contains(
                    sect->0@,
                )) && page@.contains('/'),
                Ok(out) => {
                    &&& (sect is Some ==> self.subsection_names().contains(sect->0@))
                    &&& !page@.contains('/')
                    &&& views(out@) == cand_list(
                        self.manpaths(),
                        match sect {
                            Some(s) => seq![s@],
                            None => self.subsection_names(),
                        },
                        page@,
                    )
                },
            },
    {
        let ghost wanted: Seq<Seq<char>> = match sect {
            Some(s) => seq![s@],
            None => self.subsection_names(),
        };
        let mut sects: Vec<String> = Vec::new();
        if let Some(s) = sect {
            let s_string = s.to_owned();
            if !self.contains_subsection(&s_string) {
                return Err(MandirError::UnknownSection);
            }
            sects.push(s_string);
            proof {
                assert(views(sects@) =~~= wanted);
            }
        } else {
            let mut j: usize = 0;
            while j < self.subsections.len()
                invariant
                    0 <= j <= self.subsections@.len(),
                    views(sects@) =~~= self.subsection_names().take(j as int),
                decreases self.subsections@.len() - j,
            {
                let ghost prev = views(sects@);
                sects.push(self.subsections[j].clone());
                j = j + 1;
                proof {
                    assert(views(sects@) =~~= prev.push(self.subsections@[j - 1]@));
                    assert(self.subsection_names()[j - 1] == self.subsections@[j - 1]@);
                    assert(self.subsection_names().take(j as int) =~= self.subsection_names().take(
                        j - 1,
                    ).push(self.subsection_names()[j - 1]));
                    assert(views(sects@) =~~= self.subsection_names().take(j as int));
                }
            }
            proof {
                assert(self.subsection_names().take(j as int) =~= wanted);
            }
        }
        if str_contains_char(page, '/') {
            return Err(MandirError::InvalidPage);
        }
        let ghost mps = self.manpaths();
        let ghost sv = views(sects@);
        let mut out: Vec<String> = Vec::new();
        let mut a: usize = 0;
        while a < self.manpath.len()
            invariant
                0 <= a <= self.manpath@.len(),
                mps == self.manpaths(),
                sv == views(sects@),
                mps.len() == self.manpath@.len(),
                sv.len() == sects@.len(),
                views(out@) =~~= cand_list(mps.take(a as int), sv, page@),
            decreases self.manpath@.len() - a,
        {
            let mut b: usize = 0;
            while b < sects.len()
                invariant
                    0 <= b <= sects@.len(),
                    0 <= a < self.manpath@.len(),
                    mps == self.manpaths(),
                    sv == views(sects@),
                    mps.len() == self.manpath@.len(),
                    sv.len() == sects@.len(),
                    views(out@) =~~= cand_list(mps.take(a as int), sv, page@) + cand_row(
                        mps[a as int],
                        sv.take(b as int),
                        page@,
                    ),
                decreases sects@.len() - b,
            {
                let ghost prev = views(out@);
                let cand = build_cand(&self.manpath[a], &sects[b], page);
                out.push(cand);
                b = b + 1;
                proof {
                    assert(sv.take(b as int).drop_last() =~= sv.take(b as int - 1));
                    assert(sv.take(b as int).last() == sv[b as int - 1]);
                    assert(sv[b as int - 1] == sects@[b as int - 1]@);
                    assert(mps[a as int] == self.manpath@[a as int]@);
                    assert(views(out@) =~~= prev.push(cand@));
                    assert(cand@ == cand_path(mps[a as int], sv[b as int - 1], page@));
                    assert(cand_row(mps[a as int], sv.take(b as int), page@) == cand_row(
                        mps[a as int],
                        sv.take(b as int - 1),
                        page@,
                    ).push(cand_path(mps[a as int], sv[b as int - 1], page@)));
                    assert(prev.push(cand@) =~~= cand_list(mps.take(a as int), sv, page@)
                        + cand_row(mps[a as int], sv.take(b as int), page@));
                    assert(views(out@) =~~= cand_list(mps.take(a as int), sv, page@) + cand_row(
                        mps[a as int],
                        sv.take(b as int),
                        page@,
                    ));
                }
            }
            a = a + 1;
            proof {
                assert(sv.take(b as int) =~= sv);
                assert(mps.take(a as int).drop_last() =~= mps.take(a as int - 1));
                assert(mps.take(a as int).last() == mps[a as int - 1]);
                assert(views(out@) =~~= cand_list(mps.take(a as int), sv, page@));
            }
        }
        proof {
            assert(mps.take(a as int) =~= mps);
        }
        Ok(out)
    }

    /// What one entry of the table of contents must hold for section `i`.
    pub open spec fn section_entry_ok(&self, i: int, sec: TocSection) -> bool {
        &&& sec.name@ == self.section_names()[i]
        &&& opt_text(sec.title) == title_for(self.section_titles(), self.section_names()[i])
        &&& ({
            let want = matching_subsections(self.subsection_names(), self.section_names()[i]);
            &&& sec.subsections@.len() == want.len()
            &&& forall|j: int|
                0 <= j < want.len() ==> (#[trigger] sec.subsections@[j]).name@ == want[j]
            &&& forall|j: int|
                0 <= j < want.len() ==> opt_text((#[trigger] sec.subsections@[j]).title)
                    == title_for(self.subsection_titles(), want[j])
        })
    }
}

/// The candidate path for page `page` in section `ss` under manual
/// directory `mp`: `mp/manSS/page.SS`.
pub open spec fn cand_path(mp: Seq<char>, ss: Seq<char>, page: Seq<char>) -> Seq<char> {
    mp + seq!['/', 'm', 'a', 'n'] + ss + seq!['/'] + page + seq!['.'] + ss
}

/// One manual directory's candidate paths, one per section name, in order.
pub open spec fn cand_row(mp: Seq<char>, sects: Seq<Seq<char>>, page: Seq<char>) -> Seq<Seq<char>>
    decreases sects.len(),
{
    if sects.len() == 0 {
        Seq::<Seq<char>>::empty()
    } else {
        cand_row(mp, sects.drop_last(), page).push(cand_path(mp, sects.last(), page))
    }
}

/// Every candidate path: manual directories in the order they were added,
/// section names within each.
pub open spec fn cand_list(
    mps: Seq<Seq<char>>,
    sects: Seq<Seq<char>>,
    page: Seq<char>,
) -> Seq<Seq<char>>
    decreases mps.len(),
{
    if mps.len() == 0 {
        Seq::<Seq<char>>::empty()
    } else {
        cand_list(mps.drop_last(), sects, page) + cand_row(mps.last(), sects, page)
    }
}

/// Whether the character `c` occurs in `s`.
fn str_contains_char(s: &str, c: char) -> (r: bool)
    ensures
        r == s@.contains(c),
{
    let n = s.unicode_len();
    let mut i: usize = 0;
    while i < n
        invariant
            n == s@.len(),
            0 <= i <= n,
            forall|j: int| 0 <= j < i ==> s@[j] != c,
        decreases n - i,
    {
        if s.get_char(i) == c {
            proof {
                assert(s@[i as int] == c);
            }
            return true;
        }
        i = i + 1;
    }
    false
}

/// One candidate path, assembled from its parts.
fn build_cand(mp: &String, ss: &String, page: &str) -> (r: String)
    ensures
        r@ == cand_path(mp@, ss@, page@),
{
    let mut p = String::new();
    p.append(mp.as_str());
    p.append("/man");
    p.append(ss.as_str());
    p.append("/");
    p.append(page);
    p.append(".");
    p.append(ss.as_str());
    proof {
        reveal_strlit("/man");
        reveal_strlit("/");
        reveal_strlit(".");
        assert(("/man")@ =~= seq!['/', 'm', 'a', 'n']);
        assert(("/")@ =~= seq!['/']);
        assert((".")@ =~= seq!['.']);
        assert(p@ =~= cand_path(mp@, ss@, page@));
    }
    p
}

/// Sorted with duplicates allowed: the shape of a page list.
pub open spec fn sorted(l: Seq<Seq<char>>) -> bool {
    forall|i: int, j: int| 0 <= i < j < l.len() ==> chars_le(#[trigger] l[i], #[trigger] l[j])
}

/// Every trailing occurrence of `t` removed from `s`.
pub open spec fn strip_trailer(s: Seq<char>, t: Seq<char>) -> Seq<char>
    decreases s.len(),
{
    if t.len() > 0 && t.len() <= s.len() && s.subrange(s.len() - t.len(), s.len() as int) == t {
        strip_trailer(s.subrange(0, s.len() - t.len()), t)
    } else {
        s
    }
}

/// Each name with every trailing `.sect` suffix removed.
pub open spec fn stripped(names: Seq<String>, sect: Seq<char>) -> Seq<Seq<char>> {
    names.map_values(|n: String| strip_trailer(n@, seq!['.'] + sect))
}

/// Whether `t` sits at the end of the first `endpos` characters of `s`.
fn has_suffix_at(s: &str, endpos: usize, t: &str) -> (r: bool)
    requires
        endpos <= s@.len(),
    ensures
        r == (t@.len() <= endpos && s@.take(endpos as int).subrange(
            endpos - t@.len(),
            endpos as int,
        ) == t@),
{
    let tlen = t.unicode_len();
    if tlen > endpos {
        return false;
    }
    let mut k: usize = 0;
    while k < tlen
        invariant
            tlen == t@.len(),
            tlen <= endpos <= s@.len(),
            0 <= k <= tlen,
            forall|q: int| 0 <= q < k ==> a_char_at(s@, endpos - tlen + q) == t@[q],
        decreases tlen - k,
    {
        if s.get_char(endpos - tlen + k) != t.get_char(k) {
            proof {
                assert(s@.take(endpos as int).subrange(endpos - t@.len(), endpos as int)[k as int]
                    == a_char_at(s@, endpos - tlen + k as int));
            }
            return false;
        }
        k = k + 1;
    }
    proof {
        assert(s@.take(endpos as int).subrange(endpos - t@.len(), endpos as int) =~= t@);
    }
    true
}

/// Remove every trailing occurrence of `t` from `s`, as the page list does
/// with a section suffix.
fn strip_trailer_exec(s: &str, t: &str) -> (r: String)
    requires
        t@.len() >= 1,
    ensures
        r@ == strip_trailer(s@, t@),
{
    let tlen = t.unicode_len();
    let mut endpos = s.unicode_len();
    proof {
        assert(s@.take(endpos as int) =~= s@);
    }
    let mut done = false;
    while !done
        invariant
            0 <= endpos <= s@.len(),
            tlen == t@.len(),
            t@.len() >= 1,
            strip_trailer(s@, t@) == strip_trailer(s@.take(endpos as int), t@),
            done ==> strip_trailer(s@.take(endpos as int), t@) == s@.take(endpos as int),
        decreases (if done {
            0int
        } else {
            endpos as int + 1
        }),
    {
        if has_suffix_at(s, endpos, t) {
            proof {
                let cur = s@.take(endpos as int);
                assert(cur.len() == endpos);
                assert(cur.subrange(cur.len() - t@.len(), cur.len() as int) == t@);
                assert(strip_trailer(cur, t@) == strip_trailer(
                    cur.subrange(0, cur.len() - t@.len()),
                    t@,
                ));
                assert(cur.subrange(0, endpos - t@.len()) =~= s@.take(endpos - tlen));
            }
            endpos = endpos - tlen;
        } else {
            done = true;
            proof {
                let cur = s@.take(endpos as int);
                assert(cur.len() == endpos);
                assert(!(t@.len() <= endpos && cur.subrange(endpos - t@.len(), endpos as int)
                    == t@));
                assert(strip_trailer(cur, t@) == cur);
            }
        }
    }
    let r = s.substring_char(0, endpos).to_owned();
    proof {
        assert(s@.subrange(0, endpos as int) =~= s@.take(endpos as int));
    }
    r
}

/// Insert a name into a sorted list, duplicates kept, keeping it sorted.
fn insert_sorted(v: &mut Vec<String>, s: String)
    requires
        sorted(views(old(v)@)),
    ensures
        sorted(views(final(v)@)),
        views(final(v)@).to_multiset() == views(old(v)@).to_multiset().insert(s@),
{
    broadcast use vstd::seq_lib::group_to_multiset_ensures;

    let ghost vs0 = views(old(v)@);
    let mut i: usize = 0;
    while i < v.len() && str_le(v[i].as_str(), s.as_str())
        invariant
            0 <= i <= v@.len(),
            views(v@) == vs0,
            vs0.len() == v@.len(),
            forall|j: int| 0 <= j < i ==> chars_le(#[trigger] vs0[j], s@),
        decreases v@.len() - i,
    {
        proof {
            assert(vs0[i as int] == v@[i as int]@);
        }
        i = i + 1;
    }
    proof {
        if i < v@.len() {
            assert(vs0[i as int] == v@[i as int]@);
            lemma_chars_le_total(vs0[i as int], s@);
            assert(chars_le(s@, vs0[i as int]));
        }
    }
    v.insert(i, s);
    proof {
        let w = views(v@);
        let iw = i as int;
        assert(w =~= vs0.insert(iw, s@));
        assert forall|p: int, q: int| 0 <= p < q < w.len() implies chars_le(w[p], w[q]) by {
            if q < iw {
                assert(w[p] == vs0[p] && w[q] == vs0[q]);
            } else if p < iw && q == iw {
                assert(w[p] == vs0[p] && w[q] == s@);
            } else if p < iw && q > iw {
                assert(w[p] == vs0[p] && w[q] == vs0[q - 1]);
                assert(chars_le(vs0[p], vs0[q - 1]));
            } else if p == iw {
                assert(w[p] == s@ && w[q] == vs0[q - 1]);
                assert(chars_le(s@, vs0[iw]));
                if q - 1 > iw {
                    lemma_chars_le_transitive(s@, vs0[iw], vs0[q - 1]);
                }
            } else {
                assert(w[p] == vs0[p - 1] && w[q] == vs0[q - 1]);
            }
        }
        assert(w =~= vs0.take(iw).push(s@) + vs0.skip(iw));
        vstd::seq_lib::lemma_multiset_commutative(vs0.take(iw).push(s@), vs0.skip(iw));
        assert(vs0 =~= vs0.take(iw) + vs0.skip(iw));
        vstd::seq_lib::lemma_multiset_commutative(vs0.take(iw), vs0.skip(iw));
        assert(vs0.take(iw).push(s@).to_multiset() =~= vs0.take(iw).to_multiset().insert(s@));
        assert(w.to_multiset() =~= vs0.to_multiset().insert(s@));
    }
}

/// Strict lexicographic comparison of two strings.
fn str_lt(a: &str, b: &str) -> (r: bool)
    ensures
        r == chars_lt(a@, b@),
{
    let le_ab = str_le(a, b);
    if !le_ab {
        return false;
    }
    let le_ba = str_le(b, a);
    proof {
        if le_ba {
            lemma_chars_le_antisymmetric(a@, b@);
        }
    }
    !le_ba
}

} // verus!
