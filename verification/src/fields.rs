//! Splitting a text message into its delimited fields.
use vstd::prelude::*;

verus! {

/// The pieces of `s` between occurrences of `delimiter`, as splitting a text
/// gives them: one more piece than there are delimiters, empty pieces kept.
pub open spec fn fields_of(s: Seq<u8>, delimiter: u8) -> Seq<Seq<u8>>
    decreases s.len(),
{
    if s.len() == 0 {
        seq![Seq::empty()]
    } else {
        let before = fields_of(s.drop_last(), delimiter);
        if s.last() == delimiter {
            before.push(Seq::empty())
        } else {
            before.update(before.len() - 1, before.last().push(s.last()))
        }
    }
}

/// There is always at least one piece.
proof fn lemma_fields_nonempty(s: Seq<u8>, delimiter: u8)
    ensures
        fields_of(s, delimiter).len() >= 1,
    decreases s.len(),
{
    if s.len() > 0 {
        lemma_fields_nonempty(s.drop_last(), delimiter);
    }
}

/// The pieces `fs` put back together with `delimiter` between each two.
pub open spec fn joined(fs: Seq<Seq<u8>>, delimiter: u8) -> Seq<u8>
    decreases fs.len(),
{
    if fs.len() == 0 {
        Seq::empty()
    } else if fs.len() == 1 {
        fs[0]
    } else {
        joined(fs.drop_last(), delimiter).push(delimiter) + fs.last()
    }
}

/// Splitting loses nothing and keeps no delimiter: the pieces joined again
/// with the delimiter give the text back, and no piece holds the delimiter.
pub proof fn lemma_fields_rejoin(s: Seq<u8>, delimiter: u8)
    ensures
        joined(fields_of(s, delimiter), delimiter) == s,
        forall|i: int|
            0 <= i < fields_of(s, delimiter).len() ==> !(#[trigger] fields_of(s, delimiter)[i]).contains(
                delimiter,
            ),
    decreases s.len(),
{
    let fs = fields_of(s, delimiter);
    if s.len() == 0 {
        assert(fs[0] =~= Seq::<u8>::empty());
    } else {
        let prefix = s.drop_last();
        let b = s.last();
        let f = fields_of(prefix, delimiter);
        lemma_fields_rejoin(prefix, delimiter);
        lemma_fields_nonempty(prefix, delimiter);
        if b == delimiter {
            assert(fs.drop_last() =~= f);
            assert(fs.last() =~= Seq::<u8>::empty());
            assert(joined(f, delimiter).push(delimiter) + Seq::<u8>::empty() =~= s);
        } else {
            let last = f.last().push(b);
            assert(fs.last() == last);
            if f.len() == 1 {
                assert(fs =~= seq![last]);
                assert(last =~= s);
            } else {
                assert(fs.drop_last() =~= f.drop_last());
                assert(joined(f.drop_last(), delimiter).push(delimiter) + last =~= (joined(
                    f.drop_last(),
                    delimiter,
                ).push(delimiter) + f.last()).push(b));
                assert(joined(f, delimiter).push(b) =~= s);
            }
            assert forall|i: int| 0 <= i < fs.len() implies !(#[trigger] fs[i]).contains(delimiter) by {
                if i == fs.len() - 1 {
                    if last.contains(delimiter) {
                        let j = choose|j: int| 0 <= j < last.len() && last[j] == delimiter;
                        if j < f.last().len() {
                            assert(f.last()[j] == delimiter);
                            assert(f[f.len() - 1].contains(delimiter));
                        }
                    }
                } else {
                    assert(fs[i] == f[i]);
                }
            }
        }
    }
}

/// The contents of byte buffers, one for one.
pub open spec fn field_views(s: Seq<Vec<u8>>) -> Seq<Seq<u8>> {
    s.map_values(|b: Vec<u8>| b@)
}

/// The pieces of `s` between occurrences of `delimiter`.
pub fn split_fields(s: &[u8], delimiter: u8) -> (fields: Vec<Vec<u8>>)
    ensures
        field_views(fields@) == fields_of(s@, delimiter),
{
    let mut done: Vec<Vec<u8>> = Vec::new();
    let mut current: Vec<u8> = Vec::new();
    let mut i: usize = 0;
    proof {
        assert(s@.take(0) =~= Seq::<u8>::empty());
        assert(field_views(done@).push(current@) =~= fields_of(s@.take(0), delimiter));
    }
    while i < s.len()
        invariant
            i <= s@.len(),
            field_views(done@).push(current@) == fields_of(s@.take(i as int), delimiter),
        decreases s@.len() - i,
    {
        let b = s[i];
        let ghost prefix = s@.take(i as int);
        assert(s@.take(i + 1).drop_last() =~= prefix);
        proof {
            lemma_fields_nonempty(prefix, delimiter);
        }
        if b == delimiter {
            let ghost before = done@;
            done.push(current);
            current = Vec::new();
            assert(field_views(done@) =~= field_views(before).push(done@.last()@));
            assert(field_views(done@).push(current@) =~= fields_of(s@.take(i + 1), delimiter));
        } else {
            current.push(b);
            assert(field_views(done@).push(current@) =~= fields_of(s@.take(i + 1), delimiter));
        }
        i = i + 1;
    }
    assert(s@.take(s@.len() as int) =~= s@);
    let ghost before = done@;
    done.push(current);
    assert(field_views(done@) =~= field_views(before).push(done@.last()@));
    done
}

/// Reads a message whose fields are delimited: by `|` when it starts with one,
/// else by `%` when its second byte is one. The fields are not used further;
/// the result is always 0.
pub fn handle_string(string_to_handle: &[u8]) -> (r: u8)
    requires
        string_to_handle@.len() >= 1,
        string_to_handle@[0] != '|' as u8 ==> string_to_handle@.len() >= 2,
    ensures
        r == 0,
{
    if string_to_handle[0] == '|' as u8 {
        let _fields = split_fields(string_to_handle, '|' as u8);
    } else if string_to_handle[1] == '%' as u8 {
        let _fields = split_fields(string_to_handle, '%' as u8);
    }
    0
}

} // verus!
