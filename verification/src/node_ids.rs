//! The saved list of server node ids: one id per line, surrounding white space and
//! blank lines ignored.
use vstd::prelude::*;
use vstd::string::StringExecFns;
use crate::text::{chars_of, string_of_chars, chars_equal, push_char};

verus! {

/// The characters `char::is_whitespace` accepts: those with the Unicode `White_Space`
/// property.
pub open spec fn is_white_space(c: char) -> bool {
    ('\u{9}' <= c <= '\u{d}') || c == ' ' || c == '\u{85}' || c == '\u{a0}' || c == '\u{1680}' || (
    '\u{2000}' <= c <= '\u{200a}') || c == '\u{2028}' || c == '\u{2029}' || c == '\u{202f}' || c
        == '\u{205f}' || c == '\u{3000}'
}

/// Whether a character has the Unicode `White_Space` property.
pub fn white_space(c: char) -> (r: bool)
    ensures
        r == is_white_space(c),
{
    ('\u{9}' <= c && c <= '\u{d}') || c == ' ' || c == '\u{85}' || c == '\u{a0}' || c == '\u{1680}'
        || ('\u{2000}' <= c && c <= '\u{200a}') || c == '\u{2028}' || c == '\u{2029}' || c
        == '\u{202f}' || c == '\u{205f}' || c == '\u{3000}'
}

/// Drops leading white space.
pub open spec fn trim_start(s: Seq<char>) -> Seq<char>
    decreases s.len(),
{
    if s.len() > 0 && is_white_space(s[0]) {
        trim_start(s.drop_first())
    } else {
        s
    }
}

/// Drops trailing white space.
pub open spec fn trim_end(s: Seq<char>) -> Seq<char>
    decreases s.len(),
{
    if s.len() > 0 && is_white_space(s.last()) {
        trim_end(s.drop_last())
    } else {
        s
    }
}

/// Drops leading and trailing white space, as `str::trim` does.
pub open spec fn trim(s: Seq<char>) -> Seq<char> {
    trim_end(trim_start(s))
}

/// The pieces of a text between line feeds (a text with `n` line feeds has `n + 1`).
pub open spec fn split_lines(s: Seq<char>) -> Seq<Seq<char>>
    decreases s.len(),
{
    if s.len() == 0 {
        seq![Seq::<char>::empty()]
    } else if s.last() == '\n' {
        split_lines(s.drop_last()).push(Seq::<char>::empty())
    } else {
        let l = split_lines(s.drop_last());
        l.update(l.len() - 1, l.last().push(s.last()))
    }
}

/// The ids read from lines: each line trimmed, blank ones left out.
pub open spec fn ids_of_lines(lines: Seq<Seq<char>>) -> Seq<Seq<char>>
    decreases lines.len(),
{
    if lines.len() == 0 {
        seq![]
    } else {
        let rest = ids_of_lines(lines.drop_last());
        let t = trim(lines.last());
        if t.len() > 0 {
            rest.push(t)
        } else {
            rest
        }
    }
}

/// The ids a saved file holds.
pub open spec fn spec_node_ids(content: Seq<char>) -> Seq<Seq<char>> {
    ids_of_lines(split_lines(content))
}

/// The ids joined with line feeds, as the file is written.
pub open spec fn join_lines(ids: Seq<Seq<char>>) -> Seq<char>
    decreases ids.len(),
{
    if ids.len() == 0 {
        seq![]
    } else if ids.len() == 1 {
        ids[0]
    } else {
        join_lines(ids.drop_last()) + seq!['\n'] + ids.last()
    }
}

/// The character sequences of a list of strings.
pub open spec fn views(v: Seq<String>) -> Seq<Seq<char>> {
    Seq::new(v.len(), |i: int| v[i]@)
}

proof fn lemma_split_lines_nonempty(s: Seq<char>)
    ensures
        split_lines(s).len() >= 1,
    decreases s.len(),
{
    if s.len() > 0 {
        lemma_split_lines_nonempty(s.drop_last());
    }
}

proof fn lemma_trim_start(s: Seq<char>, k: int)
    requires
        0 <= k <= s.len(),
        forall|j: int| 0 <= j < k ==> is_white_space(#[trigger] s[j]),
        k == s.len() || !is_white_space(s[k]),
    ensures
        trim_start(s) == s.subrange(k, s.len() as int),
    decreases k,
{
    if k == 0 {
        assert(s.subrange(0, s.len() as int) =~= s);
    } else {
        let t = s.drop_first();
        assert forall|j: int| 0 <= j < k - 1 implies is_white_space(#[trigger] t[j]) by {
            assert(t[j] == s[j + 1]);
        }
        if k < s.len() {
            assert(t[k - 1] == s[k]);
        }
        lemma_trim_start(t, k - 1);
        assert(t.subrange(k - 1, t.len() as int) =~= s.subrange(k, s.len() as int));
    }
}

proof fn lemma_trim_end(s: Seq<char>, k: int)
    requires
        0 <= k <= s.len(),
        forall|j: int| k <= j < s.len() ==> is_white_space(#[trigger] s[j]),
        k == 0 || !is_white_space(s[k - 1]),
    ensures
        trim_end(s) == s.subrange(0, k),
    decreases s.len() - k,
{
    if k == s.len() {
        assert(s.subrange(0, k) =~= s);
    } else {
        let t = s.drop_last();
        lemma_trim_end(t, k);
        assert(t.subrange(0, k) =~= s.subrange(0, k));
    }
}

/// The trimmed string of the characters from `from` up to `to`.
fn trimmed(cs: &[char], from: usize, to: usize) -> (s: String)
    requires
        from <= to <= cs@.len(),
    ensures
        s@ == trim(cs@.subrange(from as int, to as int)),
{
    let ghost line = cs@.subrange(from as int, to as int);
    let mut a = from;
    while a < to && white_space(cs[a])
        invariant
            from <= a <= to <= cs@.len(),
            forall|j: int| from <= j < a ==> is_white_space(#[trigger] cs@[j]),
        decreases to - a,
    {
        a = a + 1;
    }
    proof {
        assert forall|j: int| 0 <= j < a - from implies is_white_space(#[trigger] line[j]) by {
            assert(line[j] == cs@[j + from]);
        }
        if a < to {
            assert(line[a - from] == cs@[a as int]);
        }
        lemma_trim_start(line, a - from);
    }
    let ghost started = cs@.subrange(a as int, to as int);
    assert(line.subrange(a - from, line.len() as int) =~= started);
    let mut b = to;
    while b > a && white_space(cs[b - 1])
        invariant
            a <= b <= to <= cs@.len(),
            forall|j: int| b <= j < to ==> is_white_space(#[trigger] cs@[j]),
        decreases b - a,
    {
        b = b - 1;
    }
    proof {
        assert forall|j: int| b - a <= j < started.len() implies is_white_space(#[trigger] started[j]) by {
            assert(started[j] == cs@[j + a]);
        }
        if b > a {
            assert(started[b - a - 1] == cs@[b - 1]);
        }
        lemma_trim_end(started, b - a);
        assert(started.subrange(0, b - a) =~= cs@.subrange(a as int, b as int));
    }
    string_of_chars(cs, a, b)
}

/// Reads the saved ids from the file's text: every line trimmed, blank lines left out.
pub fn parse_node_ids(content: &str) -> (ids: Vec<String>)
    ensures
        views(ids@) == spec_node_ids(content@),
{
    let cs = chars_of(content);
    let mut ids: Vec<String> = Vec::new();
    let mut start: usize = 0;
    let mut i: usize = 0;
    proof { lemma_split_lines_nonempty(cs@.subrange(0, 0)); }
    while i < cs.len()
        invariant
            start <= i <= cs@.len(),
            split_lines(cs@.subrange(0, i as int)).len() >= 1,
            split_lines(cs@.subrange(0, i as int)).last() == cs@.subrange(start as int, i as int),
            views(ids@) == ids_of_lines(split_lines(cs@.subrange(0, i as int)).drop_last()),
        decreases cs@.len() - i,
    {
        let ghost lines = split_lines(cs@.subrange(0, i as int));
        assert(cs@.subrange(0, i + 1).drop_last() =~= cs@.subrange(0, i as int));
        if cs[i] == '\n' {
            let t = trimmed(cs.as_slice(), start, i);
            if !t.as_str().is_empty() {
                ids.push(t);
            }
            proof {
                let next = split_lines(cs@.subrange(0, i + 1));
                assert(next == lines.push(Seq::<char>::empty()));
                assert(next.drop_last() =~= lines);
                assert(lines =~= lines.drop_last().push(lines.last()));
            }
            start = i + 1;
        } else {
            proof {
                let next = split_lines(cs@.subrange(0, i + 1));
                assert(next.drop_last() =~= lines.drop_last());
            }
        }
        i = i + 1;
        assert(split_lines(cs@.subrange(0, i as int)).last() =~= cs@.subrange(start as int, i as int));
    }
    let t = trimmed(cs.as_slice(), start, cs.len());
    assert(cs@.subrange(0, cs@.len() as int) =~= cs@);
    let ghost lines = split_lines(cs@);
    assert(lines =~= lines.drop_last().push(lines.last()));
    if !t.as_str().is_empty() {
        ids.push(t);
    }
    ids
}

/// Adds `id` to the saved ids unless it is already there; says whether it was added.
pub fn add_node_id(ids: &mut Vec<String>, id: &str) -> (added: bool)
    ensures
        added == !views(old(ids)@).contains(id@),
        added ==> views(final(ids)@) == views(old(ids)@).push(id@),
        !added ==> final(ids)@ == old(ids)@,
{
    let id_chars = chars_of(id);
    let mut i: usize = 0;
    while i < ids.len()
        invariant
            i <= ids@.len(),
            id_chars@ == id@,
            forall|j: int| 0 <= j < i ==> ids@[j]@ != id@,
        decreases ids@.len() - i,
    {
        let entry: &String = &ids[i];
        assert(*entry == ids@[i as int]);
        let existing = chars_of(entry.as_str());
        assert(existing@ == ids@[i as int]@);
        let same = chars_equal(existing.as_slice(), id_chars.as_slice());
        assert(same == (existing@ == id_chars@));
        assert(id_chars@ == id@);
        if same {
            assert(views(ids@)[i as int] == id@);
            return false;
        }
        i = i + 1;
    }
    proof {
        if views(ids@).contains(id@) {
            let j = choose|j: int| 0 <= j < views(ids@).len() && views(ids@)[j] == id@;
            assert(ids@[j]@ == id@);
        }
    }
    ids.push(id.to_owned());
    assert(views(ids@) =~= views(old(ids)@).push(id@));
    true
}

/// The file text for a list of ids: the ids joined by line feeds.
pub fn join_node_ids(ids: &Vec<String>) -> (text: String)
    ensures
        text@ == join_lines(views(ids@)),
{
    let mut text = String::new();
    let mut i: usize = 0;
    while i < ids.len()
        invariant
            i <= ids@.len(),
            text@ == join_lines(views(ids@).subrange(0, i as int)),
        decreases ids@.len() - i,
    {
        let ghost before = views(ids@).subrange(0, i as int);
        if i > 0 {
            push_char(&mut text, '\n');
        }
        text.append(ids[i].as_str());
        proof {
            let after = views(ids@).subrange(0, i + 1);
            assert(after.drop_last() =~= before);
            if i == 0 {
                assert(text@ =~= after[0]);
            } else {
                assert(text@ =~= join_lines(before) + seq!['\n'] + after.last());
            }
        }
        i = i + 1;
    }
    assert(views(ids@).subrange(0, i as int) =~= views(ids@));
    text
}

/// What to do with the saved ids when no server id is given.
pub enum NodeIdChoice {
    /// Nothing is saved: the id has to be given.
    NoSavedIds,
    /// Exactly one id is saved: use it.
    Only(String),
    /// Several ids are saved: let the user pick one of them.
    AskUser(Vec<String>),
}

impl NodeIdChoice {
    /// The error the client stops with when no id is saved, and none otherwise.
    pub fn refusal(&self) -> (r: Option<String>)
        ensures
            self is NoSavedIds ==> (r matches Some(t) && t@ == "No saved server node IDs. Pass one with -n on first run."@),
            !(self is NoSavedIds) ==> r is None,
    {
        match self {
            NodeIdChoice::NoSavedIds => Some(String::from_str("No saved server node IDs. Pass one with -n on first run.")),
            _ => None,
        }
    }
}

/// Decides how the server id is found from the saved ids.
pub fn choose_node_id(ids: Vec<String>) -> (c: NodeIdChoice)
    ensures
        ids@.len() == 0 ==> c is NoSavedIds,
        ids@.len() == 1 ==> (c matches NodeIdChoice::Only(id) && id == ids@[0]),
        ids@.len() > 1 ==> (c matches NodeIdChoice::AskUser(v) && v@ == ids@),
{
    let n = ids.len();
    if n == 0 {
        NodeIdChoice::NoSavedIds
    } else if n == 1 {
        let mut ids = ids;
        let id = ids.pop().unwrap();
        NodeIdChoice::Only(id)
    } else {
        NodeIdChoice::AskUser(ids)
    }
}

/// An id that survives being written and read back: not blank, no surrounding white
/// space, no line feed.
pub open spec fn clean_id(id: Seq<char>) -> bool {
    id.len() > 0 && trim(id) == id && !id.contains('\n')
}

proof fn lemma_split_lines_single(b: Seq<char>)
    requires
        !b.contains('\n'),
    ensures
        split_lines(b) == seq![b],
    decreases b.len(),
{
    if b.len() == 0 {
        assert(b =~= Seq::<char>::empty());
    } else {
        assert(b.last() == b[b.len() - 1]);
        assert(b[b.len() - 1] != '\n');
        assert(!b.drop_last().contains('\n')) by {
            if b.drop_last().contains('\n') {
                let j = choose|j: int| 0 <= j < b.drop_last().len() && b.drop_last()[j] == '\n';
                assert(b[j] == '\n');
            }
        }
        lemma_split_lines_single(b.drop_last());
        assert(b.drop_last().push(b.last()) =~= b);
        assert(split_lines(b) =~= seq![b]);
    }
}

proof fn lemma_split_lines_join(a: Seq<char>, b: Seq<char>)
    requires
        !b.contains('\n'),
    ensures
        split_lines(a + seq!['\n'] + b) == split_lines(a).push(b),
    decreases b.len(),
{
    if b.len() == 0 {
        assert(b =~= Seq::<char>::empty());
        assert(a + seq!['\n'] + b =~= a.push('\n'));
        assert((a.push('\n')).drop_last() =~= a);
    } else {
        let b0 = b.drop_last();
        assert(!b0.contains('\n')) by {
            if b0.contains('\n') {
                let j = choose|j: int| 0 <= j < b0.len() && b0[j] == '\n';
                assert(b[j] == '\n');
            }
        }
        assert(b.last() == b[b.len() - 1]);
        assert(b[b.len() - 1] != '\n');
        assert(b0.push(b.last()) =~= b);
        lemma_split_lines_join(a, b0);
        let s = a + seq!['\n'] + b;
        assert(s.drop_last() =~= a + seq!['\n'] + b0);
        assert(s.last() == b.last());
        lemma_split_lines_nonempty(a);
        assert(split_lines(a).push(b0).update(split_lines(a).len() as int, b0.push(b.last())) =~= split_lines(a).push(b));
    }
}

/// Writing a list of clean ids and reading the file back gives the same list.
pub proof fn lemma_node_ids_roundtrip(ids: Seq<Seq<char>>)
    requires
        forall|i: int| 0 <= i < ids.len() ==> clean_id(#[trigger] ids[i]),
    ensures
        spec_node_ids(join_lines(ids)) == ids,
    decreases ids.len(),
{
    if ids.len() == 0 {
        assert(trim(Seq::<char>::empty()) =~= Seq::<char>::empty());
        assert(ids =~= Seq::<Seq<char>>::empty());
        assert(seq![Seq::<char>::empty()].drop_last() =~= Seq::<Seq<char>>::empty());
        assert(join_lines(ids) =~= Seq::<char>::empty());
        assert(split_lines(Seq::<char>::empty()) == seq![Seq::<char>::empty()]);
        assert(ids_of_lines(Seq::<Seq<char>>::empty()) == Seq::<Seq<char>>::empty());
        assert(ids_of_lines(seq![Seq::<char>::empty()]) =~= Seq::<Seq<char>>::empty());
    } else if ids.len() == 1 {
        assert(clean_id(ids[0]));
        lemma_split_lines_single(ids[0]);
        assert(seq![ids[0]].drop_last() =~= Seq::<Seq<char>>::empty());
        assert(ids_of_lines(Seq::<Seq<char>>::empty()) == Seq::<Seq<char>>::empty());
        assert(ids_of_lines(seq![ids[0]]) =~= seq![ids[0]]);
        assert(ids =~= seq![ids[0]]);
    } else {
        let rest = ids.drop_last();
        assert forall|i: int| 0 <= i < rest.len() implies clean_id(#[trigger] rest[i]) by {
            assert(rest[i] == ids[i]);
        }
        lemma_node_ids_roundtrip(rest);
        assert(clean_id(ids[ids.len() - 1]));
        let last = ids.last();
        assert(last == ids[ids.len() - 1]);
        assert(clean_id(last));
        lemma_split_lines_join(join_lines(rest), last);
        let lines = split_lines(join_lines(rest)).push(last);
        assert(split_lines(join_lines(ids)) == lines);
        assert(lines.drop_last() =~= split_lines(join_lines(rest)));
        assert(lines.last() == last);
        assert(ids_of_lines(lines) == rest.push(last));
        assert(rest.push(last) =~= ids);
    }
}

proof fn lemma_split_lines_no_lf(s: Seq<char>)
    ensures
        forall|i: int| 0 <= i < split_lines(s).len() ==> !(#[trigger] split_lines(s)[i]).contains('\n'),
    decreases s.len(),
{
    lemma_split_lines_nonempty(s);
    if s.len() > 0 {
        let l = split_lines(s.drop_last());
        lemma_split_lines_no_lf(s.drop_last());
        lemma_split_lines_nonempty(s.drop_last());
        if s.last() != '\n' {
            let piece = l.last().push(s.last());
            assert(!l[l.len() - 1].contains('\n'));
            assert(!piece.contains('\n')) by {
                if piece.contains('\n') {
                    let j = choose|j: int| 0 <= j < piece.len() && piece[j] == '\n';
                    if j < l.last().len() {
                        assert(l.last()[j] == '\n');
                    }
                }
            }
            assert forall|i: int| 0 <= i < split_lines(s).len() implies !(#[trigger] split_lines(s)[i]).contains('\n') by {
                if i < l.len() - 1 {
                    assert(split_lines(s)[i] == l[i]);
                }
            }
        } else {
            assert forall|i: int| 0 <= i < split_lines(s).len() implies !(#[trigger] split_lines(s)[i]).contains('\n') by {
                if i < l.len() {
                    assert(split_lines(s)[i] == l[i]);
                } else {
                    assert(split_lines(s)[i] =~= Seq::<char>::empty());
                }
            }
        }
    }
}

proof fn lemma_trim_start_facts(s: Seq<char>)
    ensures
        trim_start(s).len() <= s.len(),
        trim_start(s) == s.subrange(s.len() - trim_start(s).len(), s.len() as int),
        trim_start(s).len() > 0 ==> !is_white_space(trim_start(s)[0]),
    decreases s.len(),
{
    if s.len() > 0 && is_white_space(s[0]) {
        lemma_trim_start_facts(s.drop_first());
        let t = trim_start(s.drop_first());
        assert(s.drop_first().subrange(s.drop_first().len() - t.len(), s.drop_first().len() as int)
            =~= s.subrange(s.len() - t.len(), s.len() as int));
    } else {
        assert(s.subrange(0, s.len() as int) =~= s);
    }
}

proof fn lemma_trim_end_facts(s: Seq<char>)
    ensures
        trim_end(s).len() <= s.len(),
        trim_end(s) == s.subrange(0, trim_end(s).len() as int),
        trim_end(s).len() > 0 ==> !is_white_space(trim_end(s).last()),
    decreases s.len(),
{
    if s.len() > 0 && is_white_space(s.last()) {
        lemma_trim_end_facts(s.drop_last());
        let t = trim_end(s.drop_last());
        assert(s.drop_last().subrange(0, t.len() as int) =~= s.subrange(0, t.len() as int));
    } else {
        assert(s.subrange(0, s.len() as int) =~= s);
    }
}

/// Trimming a piece without line feeds gives a clean id or nothing.
proof fn lemma_trimmed_clean(x: Seq<char>)
    requires
        !x.contains('\n'),
    ensures
        trim(x).len() > 0 ==> clean_id(trim(x)),
{
    let u = trim_start(x);
    let t = trim(x);
    lemma_trim_start_facts(x);
    lemma_trim_end_facts(u);
    let a = x.len() - u.len();
    assert(t =~= x.subrange(a, a + t.len()));
    if t.len() > 0 {
        assert(!t.contains('\n')) by {
            if t.contains('\n') {
                let j = choose|j: int| 0 <= j < t.len() && t[j] == '\n';
                assert(x[a + j] == '\n');
            }
        }
        assert(t[0] == u[0]);
        assert(trim_start(t) == t);
        assert(trim_end(t) == t);
    }
}

/// Every id read from a file is clean.
proof fn lemma_ids_clean(lines: Seq<Seq<char>>)
    requires
        forall|i: int| 0 <= i < lines.len() ==> !(#[trigger] lines[i]).contains('\n'),
    ensures
        forall|i: int| 0 <= i < ids_of_lines(lines).len() ==> clean_id(#[trigger] ids_of_lines(lines)[i]),
    decreases lines.len(),
{
    if lines.len() > 0 {
        let init = lines.drop_last();
        assert forall|i: int| 0 <= i < init.len() implies !(#[trigger] init[i]).contains('\n') by {
            assert(init[i] == lines[i]);
        }
        lemma_ids_clean(init);
        assert(lines.last() == lines[lines.len() - 1]);
        lemma_trimmed_clean(lines.last());
        let rest = ids_of_lines(init);
        assert forall|i: int| 0 <= i < ids_of_lines(lines).len() implies clean_id(#[trigger] ids_of_lines(lines)[i]) by {
            if i < rest.len() {
                assert(ids_of_lines(lines)[i] == rest[i]);
            }
        }
    }
}

/// What the file holds after an id is saved: unchanged when the id is already there,
/// otherwise the ids with the new one added at the end, joined by line feeds.
pub open spec fn saved_file(content: Seq<char>, id: Seq<char>) -> Seq<char> {
    let ids = spec_node_ids(content);
    if ids.contains(id) {
        content
    } else {
        join_lines(ids.push(id))
    }
}

/// Saving an id and reading the file back gives the ids the file held, with the id added
/// at the end unless it was already there; so the saved id is always read back. The id
/// must be clean: an id with surrounding white space or a line feed is read back changed.
pub proof fn lemma_saved_id_read_back(content: Seq<char>, id: Seq<char>)
    requires
        clean_id(id),
    ensures
        spec_node_ids(saved_file(content, id)) == (if spec_node_ids(content).contains(id) {
            spec_node_ids(content)
        } else {
            spec_node_ids(content).push(id)
        }),
        spec_node_ids(saved_file(content, id)).contains(id),
{
    let ids = spec_node_ids(content);
    lemma_split_lines_no_lf(content);
    lemma_ids_clean(split_lines(content));
    if !ids.contains(id) {
        let next = ids.push(id);
        assert forall|i: int| 0 <= i < next.len() implies clean_id(#[trigger] next[i]) by {
            if i < ids.len() {
                assert(next[i] == ids[i]);
            }
        }
        lemma_node_ids_roundtrip(next);
        assert(next[ids.len() as int] == id);
    }
}

} // verus!
