use vstd::prelude::*;

use crate::error::{Error, MALFORMED_RECORD};
use crate::secret::{
    Secret, SecretView, is_record, lacks, lemma_record_round_trip, line_of, record_of,
};

verus! {

/// The pieces of `s` between occurrences of `c`, in order; `k` occurrences
/// give `k + 1` pieces.
pub open spec fn split_on(s: Seq<char>, c: char) -> Seq<Seq<char>>
    decreases s.len(),
{
    if s.len() == 0 {
        seq![Seq::empty()]
    } else {
        let prev = split_on(s.drop_last(), c);
        if s.last() == c {
            prev.push(Seq::empty())
        } else {
            prev.update(prev.len() - 1, prev.last().push(s.last()))
        }
    }
}

/// The non-empty members of `ls`, in order.
pub open spec fn non_empty(ls: Seq<Seq<char>>) -> Seq<Seq<char>>
    decreases ls.len(),
{
    if ls.len() == 0 {
        Seq::empty()
    } else if ls.last().len() > 0 {
        non_empty(ls.drop_last()).push(ls.last())
    } else {
        non_empty(ls.drop_last())
    }
}

/// The non-empty lines of a text.
pub open spec fn lines_of(s: Seq<char>) -> Seq<Seq<char>> {
    non_empty(split_on(s, '\n'))
}

/// Every line is a record.
pub open spec fn all_records(ls: Seq<Seq<char>>) -> bool {
    forall|i: int| 0 <= i < ls.len() ==> is_record(#[trigger] ls[i])
}

/// The secrets that a sequence of record lines holds.
pub open spec fn records_of(ls: Seq<Seq<char>>) -> Seq<SecretView> {
    ls.map_values(|l: Seq<char>| record_of(l))
}

/// The text of a secret list: each record line followed by a newline.
pub open spec fn text_of(ss: Seq<SecretView>) -> Seq<char>
    decreases ss.len(),
{
    if ss.len() == 0 {
        Seq::empty()
    } else {
        text_of(ss.drop_last()) + line_of(ss.last()) + seq!['\n']
    }
}

/// A secret whose record line survives a write and a read: no tab and no
/// newline in its name or seed.
pub open spec fn storable(v: SecretView) -> bool {
    lacks(v.name, '\t') && lacks(v.name, '\n') && lacks(v.seed, '\t') && lacks(v.seed, '\n')
}

pub open spec fn views_of(v: Seq<Secret>) -> Seq<SecretView> {
    v.map_values(|s: Secret| s@)
}

pub open spec fn texts_of(v: Seq<String>) -> Seq<Seq<char>> {
    v.map_values(|s: String| s@)
}

pub proof fn lemma_split_len(s: Seq<char>, c: char)
    ensures
        split_on(s, c).len() >= 1,
    decreases s.len(),
{
    if s.len() > 0 {
        lemma_split_len(s.drop_last(), c);
    }
}

/// Splits `s` at every occurrence of `c`.
pub fn split_text(s: &str, c: char) -> (r: Vec<String>)
    ensures
        texts_of(r@) == split_on(s@, c),
{
    let n = s.unicode_len();
    let mut parts: Vec<String> = Vec::new();
    let mut start: usize = 0;
    let mut i: usize = 0;
    assert(s@.take(0) =~= Seq::<char>::empty());
    assert(texts_of(parts@).push(s@.subrange(0, 0)) =~= seq![Seq::<char>::empty()]);
    while i < n
        invariant
            n == s@.len(),
            start <= i <= n,
            split_on(s@.take(i as int), c) == texts_of(parts@).push(s@.subrange(start as int, i as int)),
        decreases n - i,
    {
        let ch = s.get_char(i);
        let ghost prev = texts_of(parts@);
        assert(s@.take(i + 1).drop_last() =~= s@.take(i as int));
        if ch == c {
            let piece = s.substring_char(start, i);
            parts.push(piece.to_owned());
            start = i + 1;
            assert(texts_of(parts@) =~= prev.push(piece@));
            assert(s@.subrange(start as int, i + 1) =~= Seq::<char>::empty());
        } else {
            assert(s@.subrange(start as int, i + 1) =~= s@.subrange(start as int, i as int).push(ch));
            assert(split_on(s@.take(i + 1), c) =~= prev.push(s@.subrange(start as int, i + 1)));
        }
        i += 1;
    }
    let last = s.substring_char(start, n);
    let ghost prev = texts_of(parts@);
    parts.push(last.to_owned());
    assert(texts_of(parts@) =~= prev.push(last@));
    assert(s@.take(n as int) =~= s@);
    parts
}

proof fn lemma_non_empty_prefix(ls: Seq<Seq<char>>, j: int)
    requires
        0 <= j <= ls.len(),
    ensures
        non_empty(ls.take(j)).len() <= non_empty(ls).len(),
        forall|i: int|
            0 <= i < non_empty(ls.take(j)).len() ==> non_empty(ls.take(j))[i] == non_empty(ls)[i],
    decreases ls.len(),
{
    if j == ls.len() {
        assert(ls.take(j) =~= ls);
    } else {
        lemma_non_empty_prefix(ls.drop_last(), j);
        assert(ls.drop_last().take(j) =~= ls.take(j));
    }
}

/// Reads the secrets of a text: one record per non-empty line.
pub fn parse_secrets(text: &str) -> (r: Result<Vec<Secret>, Error>)
    ensures
        match r {
            Ok(v) => all_records(lines_of(text@)) && views_of(v@) == records_of(lines_of(text@)),
            Err(e) => !all_records(lines_of(text@)) && e.message@ == MALFORMED_RECORD@,
        },
{
    let parts = split_text(text, '\n');
    let ghost ps = texts_of(parts@);
    let mut out: Vec<Secret> = Vec::new();
    let mut j: usize = 0;
    assert(ps.take(0) =~= Seq::<Seq<char>>::empty());
    assert(views_of(out@) =~= records_of(non_empty(ps.take(0))));
    while j < parts.len()
        invariant
            ps == texts_of(parts@),
            ps == split_on(text@, '\n'),
            j <= parts.len(),
            all_records(non_empty(ps.take(j as int))),
            views_of(out@) == records_of(non_empty(ps.take(j as int))),
        decreases parts.len() - j,
    {
        let ghost before = non_empty(ps.take(j as int));
        assert(ps.take(j + 1).drop_last() =~= ps.take(j as int));
        let line = parts[j].as_str();
        assert(line@ == ps[j as int]);
        if line.unicode_len() > 0 {
            assert(non_empty(ps.take(j + 1)) == before.push(line@));
            proof {
                lemma_non_empty_prefix(ps, j + 1);
            }
            match Secret::parse(line) {
                Ok(s) => {
                    let ghost old_out = views_of(out@);
                    out.push(s);
                    assert(views_of(out@) =~= old_out.push(s@));
                    assert(records_of(before.push(line@)) =~= records_of(before).push(
                        record_of(line@),
                    ));
                    assert(all_records(before.push(line@))) by {
                        assert forall|i: int| 0 <= i < before.len() + 1 implies is_record(
                            #[trigger] before.push(line@)[i],
                        ) by {
                            if i < before.len() {
                                assert(before.push(line@)[i] == before[i]);
                            }
                        }
                    }
                },
                Err(e) => {
                    assert(non_empty(ps)[before.len() as int] == line@);
                    return Err(e);
                },
            }
        } else {
            assert(non_empty(ps.take(j + 1)) == before);
        }
        j += 1;
    }
    assert(ps.take(parts.len() as int) =~= ps);
    Ok(out)
}

/// Writes the record line of each secret, each followed by a newline.
pub fn records_text(secrets: &Vec<Secret>) -> (r: String)
    ensures
        r@ == text_of(views_of(secrets@)),
{
    let ghost vs = views_of(secrets@);
    let mut r = String::new();
    let mut i: usize = 0;
    assert(vs.take(0) =~= Seq::<SecretView>::empty());
    while i < secrets.len()
        invariant
            vs == views_of(secrets@),
            i <= secrets.len(),
            r@ == text_of(vs.take(i as int)),
        decreases secrets.len() - i,
    {
        let line = secrets[i].to_line();
        r.append(line.as_str());
        r.append("\n");
        proof {
            reveal_strlit("\n");
            assert(vs.take(i + 1).drop_last() =~= vs.take(i as int));
            assert(vs.take(i + 1).last() == secrets@[i as int]@);
        }
        i += 1;
    }
    assert(vs.take(secrets.len() as int) =~= vs);
    r
}

pub proof fn lemma_split_append(a: Seq<char>, b: Seq<char>, c: char)
    requires
        lacks(b, c),
    ensures
        split_on(a + b, c) == split_on(a, c).update(
            split_on(a, c).len() - 1,
            split_on(a, c).last() + b,
        ),
    decreases b.len(),
{
    lemma_split_len(a, c);
    let p = split_on(a, c);
    if b.len() == 0 {
        assert(a + b =~= a);
        assert(p.last() + b =~= p.last());
        assert(p.update(p.len() - 1, p.last()) =~= p);
    } else {
        let b1 = b.drop_last();
        lemma_split_append(a, b1, c);
        assert((a + b).drop_last() =~= a + b1);
        assert((a + b).last() == b.last());
        assert(b.last() != c);
        assert((p.last() + b1).push(b.last()) =~= p.last() + b);
        let q = p.update(p.len() - 1, p.last() + b1);
        assert(q.update(q.len() - 1, q.last().push(b.last())) =~= p.update(
            p.len() - 1,
            p.last() + b,
        ));
    }
}

pub proof fn lemma_non_empty_all(ls: Seq<Seq<char>>)
    requires
        forall|i: int| 0 <= i < ls.len() ==> (#[trigger] ls[i]).len() > 0,
    ensures
        non_empty(ls) == ls,
    decreases ls.len(),
{
    if ls.len() > 0 {
        lemma_non_empty_all(ls.drop_last());
        assert(ls.drop_last().push(ls.last()) =~= ls);
    }
}

proof fn lemma_split_text(ss: Seq<SecretView>)
    requires
        forall|i: int| 0 <= i < ss.len() ==> storable(#[trigger] ss[i]),
    ensures
        split_on(text_of(ss), '\n') == ss.map_values(|v: SecretView| line_of(v)).push(
            Seq::empty(),
        ),
    decreases ss.len(),
{
    let lines = ss.map_values(|v: SecretView| line_of(v));
    if ss.len() == 0 {
        assert(lines.push(Seq::empty()) =~= seq![Seq::<char>::empty()]);
    } else {
        let pre = ss.drop_last();
        let v = ss.last();
        assert(storable(ss[ss.len() - 1]));
        assert forall|i: int| 0 <= i < pre.len() implies storable(#[trigger] pre[i]) by {
            assert(pre[i] == ss[i]);
        }
        lemma_split_text(pre);
        let m = pre.map_values(|v: SecretView| line_of(v));
        let l = line_of(v);
        assert forall|j: int| 0 <= j < l.len() implies l[j] != '\n' by {
            if j < v.name.len() {
                assert(l[j] == v.name[j]);
            } else if j > v.name.len() {
                assert(l[j] == v.seed[j - v.name.len() - 1]);
            }
        }
        lemma_split_append(text_of(pre), l, '\n');
        let t = text_of(pre) + l;
        assert(m.push(Seq::empty()).update(m.len() as int, Seq::<char>::empty() + l) =~= m.push(l));
        assert((t + seq!['\n']).drop_last() =~= t);
        assert(text_of(ss) == t + seq!['\n']);
        assert(m.push(l) =~= lines);
    }
}

/// Every storable secret list reads back from its text as the same list.
pub proof fn lemma_text_round_trip(ss: Seq<SecretView>)
    requires
        forall|i: int| 0 <= i < ss.len() ==> storable(#[trigger] ss[i]),
    ensures
        all_records(lines_of(text_of(ss))),
        records_of(lines_of(text_of(ss))) == ss,
{
    lemma_split_text(ss);
    let lines = ss.map_values(|v: SecretView| line_of(v));
    assert(non_empty(lines.push(Seq::empty())) == non_empty(lines)) by {
        assert(lines.push(Seq::empty()).drop_last() =~= lines);
    }
    assert forall|i: int| 0 <= i < lines.len() implies (#[trigger] lines[i]).len() > 0 by {
        assert(line_of(ss[i]).len() > 0);
    }
    lemma_non_empty_all(lines);
    assert forall|i: int| 0 <= i < lines.len() implies is_record(#[trigger] lines[i])
        && record_of(lines[i]) == ss[i] by {
        assert(storable(ss[i]));
        lemma_record_round_trip(ss[i]);
    }
    assert(records_of(lines) =~= ss);
}

/// Three fields that hold no separator, each behind one separator, split
/// into an empty piece and the three fields.
pub proof fn lemma_split_fields(a: Seq<char>, b: Seq<char>, d: Seq<char>, c: char)
    requires
        lacks(a, c),
        lacks(b, c),
        lacks(d, c),
    ensures
        split_on(seq![c] + a + seq![c] + b + seq![c] + d, c) == seq![Seq::empty(), a, b, d],
{
    let e = Seq::<char>::empty();
    let s0 = seq![c];
    assert(s0.drop_last() =~= e);
    assert(split_on(e, c) =~= seq![e]);
    assert(s0.last() == c);
    assert(split_on(s0, c) =~= split_on(e, c).push(e));
    lemma_split_append(s0, a, c);
    let s1 = s0 + a;
    assert(split_on(s1, c) =~= seq![e, a]);
    assert((s1 + seq![c]).drop_last() =~= s1);
    assert(split_on(s1 + seq![c], c) =~= seq![e, a, e]);
    lemma_split_append(s1 + seq![c], b, c);
    let s2 = s1 + seq![c] + b;
    assert(split_on(s2, c) =~= seq![e, a, b]);
    assert((s2 + seq![c]).drop_last() =~= s2);
    assert(split_on(s2 + seq![c], c) =~= seq![e, a, b, e]);
    lemma_split_append(s2 + seq![c], d, c);
    assert(split_on(s2 + seq![c] + d, c) =~= seq![e, a, b, d]);
}

/// The text of a non-empty secret list begins with the first secret's line.
pub proof fn lemma_text_first(ss: Seq<SecretView>)
    requires
        ss.len() > 0,
    ensures
        text_of(ss).len() > 0,
        text_of(ss)[0] == line_of(ss[0])[0],
    decreases ss.len(),
{
    assert(line_of(ss.last()).len() > 0);
    if ss.len() > 1 {
        lemma_text_first(ss.drop_last());
        assert(ss.drop_last()[0] == ss[0]);
    } else {
        assert(text_of(ss.drop_last()) =~= Seq::<char>::empty());
    }
}

} // verus!
