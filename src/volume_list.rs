use vstd::prelude::*;
use vstd::string::{StrSliceExecFns, StringExecFns};
use crate::placement::names;

verus! {

/// The fields joined with a comma between each two.
pub open spec fn join_commas(fields: Seq<Seq<char>>) -> Seq<char>
    decreases fields.len(),
{
    if fields.len() == 0 {
        seq![]
    } else if fields.len() == 1 {
        fields[0]
    } else {
        join_commas(fields.drop_last()) + seq![','] + fields.last()
    }
}

/// Position of the last comma of `s`, or -1 where it holds none.
pub open spec fn last_comma(s: Seq<char>) -> int
    decreases s.len(),
{
    if s.len() == 0 {
        -1
    } else if s.last() == ',' {
        s.len() - 1
    } else {
        last_comma(s.drop_last())
    }
}

/// The comma-separated fields of `s`; a string with no comma is one field.
pub open spec fn split_commas(s: Seq<char>) -> Seq<Seq<char>>
    decreases s.len(),
{
    let c = last_comma(s);
    if c < 0 || c >= s.len() {
        seq![s]
    } else {
        split_commas(s.take(c)) + seq![s.skip(c + 1)]
    }
}

/// Whether `s` holds no comma.
pub open spec fn comma_free(s: Seq<char>) -> bool {
    forall|i: int| 0 <= i < s.len() ==> s[i] != ','
}

proof fn lemma_last_comma_bounds(s: Seq<char>)
    ensures
        -1 <= last_comma(s) < s.len(),
        last_comma(s) >= 0 ==> s[last_comma(s)] == ',',
        forall|i: int| last_comma(s) < i < s.len() ==> s[i] != ',',
    decreases s.len(),
{
    if s.len() > 0 && s.last() != ',' {
        let d = s.drop_last();
        lemma_last_comma_bounds(d);
        assert forall|i: int| last_comma(s) < i < s.len() implies s[i] != ',' by {
            if i < s.len() - 1 {
                assert(s[i] == d[i]);
            }
        }
    }
}

proof fn lemma_last_comma_of(s: Seq<char>, c: int)
    requires
        -1 <= c < s.len(),
        c >= 0 ==> s[c] == ',',
        forall|i: int| c < i < s.len() ==> s[i] != ',',
    ensures
        last_comma(s) == c,
    decreases s.len(),
{
    if s.len() > 0 && s.last() != ',' {
        lemma_last_comma_of(s.drop_last(), c);
    }
}

/// Joins the identifiers with commas, the form in which a replica list is
/// written out.
pub fn join_volumes(volumes: &[String]) -> (r: String)
    ensures
        r@ == join_commas(names(volumes@)),
{
    let ghost vs = names(volumes@);
    let mut out = String::new();
    if volumes.len() == 0 {
        return out;
    }
    let sep = ",";
    proof {
        reveal_strlit(",");
    }
    out.append(volumes[0].as_str());
    let mut i: usize = 1;
    assert(vs.take(1).drop_last() =~= Seq::<Seq<char>>::empty());
    while i < volumes.len()
        invariant
            1 <= i <= volumes@.len(),
            vs == names(volumes@),
            sep@ == seq![','],
            out@ == join_commas(vs.take(i as int)),
        decreases volumes@.len() - i,
    {
        out.append(sep);
        out.append(volumes[i].as_str());
        proof {
            assert(vs.take(i + 1).drop_last() =~= vs.take(i as int));
        }
        i = i + 1;
    }
    assert(vs.take(volumes@.len() as int) =~= vs);
    out
}

/// Splits a comma-separated list of volume identifiers.
pub fn split_volumes(s: &str) -> (r: Vec<String>)
    ensures
        names(r@) == split_commas(s@),
{
    let n = s.unicode_len();
    let mut fields: Vec<String> = Vec::new();
    let mut start: usize = 0;
    let mut i: usize = 0;
    assert(s@.take(0).len() == 0);
    proof {
        lemma_last_comma_of(s@.take(0), -1);
        assert(s@.take(0).subrange(0, 0) =~= s@.take(0));
    }
    while i < n
        invariant
            n == s@.len(),
            start <= i <= n,
            split_commas(s@.take(i as int)) == names(fields@) + seq![s@.subrange(start as int, i as int)],
            last_comma(s@.take(i as int)) == start - 1,
        decreases n - i,
    {
        let c = s.get_char(i);
        let ghost t = s@.take(i + 1);
        proof {
            lemma_last_comma_bounds(s@.take(i as int));
            assert(t.drop_last() =~= s@.take(i as int));
        }
        if c == ',' {
            proof {
                assert(last_comma(t) == i);
                assert(t.take(i as int) =~= s@.take(i as int));
                assert(t.skip(i + 1) =~= Seq::<char>::empty());
                assert(s@.subrange(i + 1, i + 1) =~= Seq::<char>::empty());
            }
            let ghost before = fields@;
            fields.push(s.substring_char(start, i).to_owned());
            proof {
                assert(names(fields@) =~= names(before) + seq![s@.subrange(start as int, i as int)]);
            }
            start = i + 1;
        } else {
            proof {
                assert(last_comma(t) == last_comma(s@.take(i as int)));
                if start >= 1 {
                    assert(t.take(start - 1) =~= s@.take(i as int).take(start - 1));
                    assert(t.skip(start as int) =~= s@.subrange(start as int, i + 1));
                    assert(s@.take(i as int).skip(start as int) =~= s@.subrange(start as int, i as int));
                    assert(split_commas(s@.take(i as int)) == split_commas(s@.take(i as int).take(start - 1))
                        + seq![s@.take(i as int).skip(start as int)]);
                    let a = split_commas(t.take(start - 1));
                    assert(names(fields@) =~= (names(fields@) + seq![s@.subrange(start as int, i as int)]).drop_last());
                    assert(a + seq![s@.subrange(start as int, i as int)] == names(fields@) + seq![s@.subrange(start as int, i as int)]);
                    assert(a =~= (a + seq![s@.subrange(start as int, i as int)]).drop_last());
                } else {
                    assert(s@.subrange(0, i + 1) =~= t);
                }
            }
        }
        i = i + 1;
    }
    let ghost before = fields@;
    fields.push(s.substring_char(start, n).to_owned());
    proof {
        assert(s@.take(n as int) =~= s@);
        assert(names(fields@) =~= names(before) + seq![s@.subrange(start as int, n as int)]);
    }
    fields
}

/// Splitting a joined list gives the list back, where it is not empty and no
/// identifier in it holds a comma.
pub proof fn lemma_split_join(fields: Seq<Seq<char>>)
    requires
        fields.len() > 0,
        forall|i: int| 0 <= i < fields.len() ==> comma_free(#[trigger] fields[i]),
    ensures
        split_commas(join_commas(fields)) == fields,
    decreases fields.len(),
{
    let j = join_commas(fields);
    if fields.len() == 1 {
        lemma_last_comma_of(j, -1);
    } else {
        let init = fields.drop_last();
        lemma_split_join(init);
        let a = join_commas(init);
        let c = a.len() as int;
        assert(j == a + seq![','] + fields.last());
        assert(comma_free(fields[fields.len() - 1]));
        lemma_last_comma_of(j, c);
        assert(j.take(c) =~= a);
        assert(j.skip(c + 1) =~= fields.last());
        assert(split_commas(j) =~= fields);
    }
}

} // verus!
