use vstd::prelude::*;
use crate::parse::{FlagParseable, ParseErr};

verus! {

/// The pieces of `s` between commas, in order; there is always at least one.
pub open spec fn split_commas(s: Seq<char>) -> Seq<Seq<char>>
    decreases s.len(),
{
    if s.len() == 0 {
        seq![Seq::empty()]
    } else {
        let rest = split_commas(s.drop_last());
        if s.last() == ',' {
            rest.push(Seq::empty())
        } else {
            rest.update(rest.len() - 1, rest.last().push(s.last()))
        }
    }
}

/// The texts with a comma between each two.
pub open spec fn join_commas(parts: Seq<Seq<char>>) -> Seq<char>
    decreases parts.len(),
{
    if parts.len() <= 1 {
        if parts.len() == 0 { Seq::empty() } else { parts[0] }
    } else {
        join_commas(parts.drop_last()) + seq![','] + parts.last()
    }
}

/// The values that the texts denote, when every one of them denotes one.
pub open spec fn parse_all<T: FlagParseable>(parts: Seq<Seq<char>>) -> Option<Seq<T::V>>
    decreases parts.len(),
{
    if parts.len() == 0 {
        Some(Seq::empty())
    } else {
        match (parse_all::<T>(parts.drop_last()), T::parse_spec(parts.last())) {
            (Some(a), Some(b)) => Some(a.push(b)),
            _ => None,
        }
    }
}

/// The canonical texts of the values.
pub open spec fn format_all<T: FlagParseable>(v: Seq<T::V>) -> Seq<Seq<char>> {
    v.map_values(|x: T::V| T::format_spec(x))
}

pub proof fn lemma_split_nonempty(s: Seq<char>)
    ensures
        split_commas(s).len() >= 1,
    decreases s.len(),
{
    if s.len() > 0 {
        lemma_split_nonempty(s.drop_last());
    }
}

/// Text without commas extends the last piece.
proof fn lemma_split_extend(p: Seq<char>, b: Seq<char>)
    requires
        !b.contains(','),
    ensures
        split_commas(p + b) == split_commas(p).update(split_commas(p).len() - 1, split_commas(p).last() + b),
    decreases b.len(),
{
    lemma_split_nonempty(p);
    let sp = split_commas(p);
    if b.len() == 0 {
        assert(p + b =~= p);
        assert(sp.last() + b =~= sp.last());
        assert(sp.update(sp.len() - 1, sp.last()) =~= sp);
    } else {
        let bl = b.drop_last();
        assert(!bl.contains(',')) by {
            if bl.contains(',') {
                let k = choose|k: int| 0 <= k < bl.len() && bl[k] == ',';
                assert(b[k] == ',');
            }
        }
        lemma_split_extend(p, bl);
        assert((p + b).drop_last() =~= p + bl);
        assert((p + b).last() == b.last());
        assert(b.last() != ',') by {
            assert(b[b.len() - 1] == b.last());
        }
        let rest = split_commas(p + bl);
        assert(rest.last() == sp.last() + bl);
        assert((sp.last() + bl).push(b.last()) =~= sp.last() + b);
        assert(rest.update(rest.len() - 1, rest.last().push(b.last())) =~= sp.update(
            sp.len() - 1,
            sp.last() + b,
        ));
    }
}

/// Splitting texts joined with commas gives them back, when none of them
/// holds a comma.
pub proof fn lemma_split_join(parts: Seq<Seq<char>>)
    requires
        parts.len() >= 1,
        forall|k: int| 0 <= k < parts.len() ==> !(#[trigger] parts[k]).contains(','),
    ensures
        split_commas(join_commas(parts)) == parts,
    decreases parts.len(),
{
    if parts.len() == 1 {
        lemma_split_extend(Seq::empty(), parts[0]);
        assert(Seq::<char>::empty() + parts[0] =~= parts[0]);
        assert(split_commas(Seq::empty()) == seq![Seq::<char>::empty()]);
        assert(seq![Seq::<char>::empty()].update(0, Seq::<char>::empty() + parts[0]) =~= parts);
    } else {
        let init = parts.drop_last();
        let j = join_commas(init);
        lemma_split_join(init);
        let jc = j + seq![','];
        assert(jc.drop_last() =~= j);
        assert(split_commas(jc) == init.push(Seq::empty()));
        assert(!parts.last().contains(',')) by {
            assert(parts[parts.len() - 1] == parts.last());
        }
        lemma_split_extend(jc, parts.last());
        assert(Seq::<char>::empty() + parts.last() =~= parts.last());
        assert(init.push(Seq::empty()).update(init.len() as int, parts.last()) =~= parts);
    }
}

/// The values parse one by one.
pub proof fn lemma_parse_all<T: FlagParseable>(parts: Seq<Seq<char>>)
    ensures
        parse_all::<T>(parts) is Some <==> forall|k: int| 0 <= k < parts.len() ==> (#[trigger] T::parse_spec(parts[k])) is Some,
        parse_all::<T>(parts) matches Some(v) ==> v.len() == parts.len() && forall|k: int|
            0 <= k < parts.len() ==> v[k] == (#[trigger] T::parse_spec(parts[k])).unwrap(),
    decreases parts.len(),
{
    if parts.len() > 0 {
        let init = parts.drop_last();
        lemma_parse_all::<T>(init);
        assert forall|k: int| 0 <= k < init.len() implies #[trigger] init[k] == parts[k] by {}
        if parse_all::<T>(parts) is None {
            if T::parse_spec(parts.last()) is Some {
                let k = choose|k: int| 0 <= k < init.len() && (#[trigger] T::parse_spec(init[k])) is None;
                assert(init[k] == parts[k]);
            } else {
                assert(parts[parts.len() - 1] == parts.last());
            }
        } else {
            assert forall|k: int| 0 <= k < parts.len() implies (#[trigger] T::parse_spec(parts[k])) is Some by {
                if k < init.len() {
                    assert(init[k] == parts[k]);
                    assert(T::parse_spec(init[k]) is Some);
                }
            }
            let a = parse_all::<T>(init).unwrap();
            let v = parse_all::<T>(parts).unwrap();
            assert(v == a.push(T::parse_spec(parts.last()).unwrap()));
            assert forall|k: int| 0 <= k < parts.len() implies v[k] == (#[trigger] T::parse_spec(parts[k])).unwrap() by {
                if k < init.len() {
                    assert(init[k] == parts[k]);
                    assert(a[k] == T::parse_spec(init[k]).unwrap());
                } else {
                    assert(parts[k] == parts.last());
                }
            }
        }
    }
}

/// A list of values, written as the values' texts separated by commas.
#[derive(Debug, PartialEq, Eq)]
pub struct FlagList<T> {
    pub items: Vec<T>,
}

impl<T: View> View for FlagList<T> {
    type V = Seq<T::V>;

    open spec fn view(&self) -> Seq<T::V> {
        self.items@.map_values(|t: T| t@)
    }
}

impl<T: FlagParseable> Clone for FlagList<T> {
    fn clone(&self) -> (r: Self)
        ensures
            r@ == self@,
    {
        let mut items: Vec<T> = Vec::new();
        let mut i: usize = 0;
        while i < self.items.len()
            invariant
                i <= self.items@.len(),
                items@.len() == i,
                forall|k: int| 0 <= k < i ==> (#[trigger] items@[k])@ == self.items@[k]@,
            decreases self.items.len() - i,
        {
            let c = self.items[i].clone();
            proof {
                T::lemma_clone_keeps_view(self.items@[i as int], c);
            }
            items.push(c);
            i = i + 1;
        }
        let r = FlagList { items };
        assert(r@ =~= self@);
        r
    }
}

impl<T: FlagParseable> FlagParseable for FlagList<T> {
    open spec fn parse_spec(s: Seq<char>) -> Option<Seq<T::V>> {
        parse_all::<T>(split_commas(s))
    }

    open spec fn format_spec(v: Seq<T::V>) -> Seq<char> {
        join_commas(format_all::<T>(v))
    }

    /// A list has a canonical text when it is not empty and its values have
    /// canonical texts without commas.
    open spec fn canonical(v: Seq<T::V>) -> bool {
        &&& v.len() >= 1
        &&& forall|k: int| 0 <= k < v.len() ==> T::canonical(#[trigger] v[k])
        &&& forall|k: int| 0 <= k < v.len() ==> !(#[trigger] T::format_spec(v[k])).contains(',')
    }

    /// The offending text is a piece that does not parse.
    open spec fn reports(s: Seq<char>, e: Seq<char>) -> bool {
        exists|k: int| 0 <= k < split_commas(s).len() && #[trigger] split_commas(s)[k] == e && T::parse_spec(e) is None
    }

    proof fn lemma_round_trip(v: Seq<T::V>) {
        let texts = format_all::<T>(v);
        assert forall|k: int| 0 <= k < texts.len() implies !(#[trigger] texts[k]).contains(',') by {
            assert(texts[k] == T::format_spec(v[k]));
        }
        lemma_split_join(texts);
        assert forall|k: int| 0 <= k < texts.len() implies #[trigger] T::parse_spec(texts[k]) == Some(v[k]) by {
            assert(texts[k] == T::format_spec(v[k]));
            T::lemma_round_trip(v[k]);
        }
        lemma_parse_all::<T>(texts);
        let w = parse_all::<T>(texts).unwrap();
        assert(w.len() == v.len());
        assert forall|k: int| 0 <= k < v.len() implies w[k] == v[k] by {
            assert(T::parse_spec(texts[k]) == Some(v[k]));
        }
        assert(w =~= v);
    }

    proof fn lemma_clone_keeps_view(a: Self, b: Self) {
    }

    fn parse_from_str(s: &str) -> (r: Result<FlagList<T>, ParseErr>) {
        let len = s.unicode_len();
        let mut items: Vec<T> = Vec::new();
        let mut bad: Option<String> = None;
        let ghost mut done: Seq<Seq<char>> = Seq::empty();
        let mut start: usize = 0;
        let mut i: usize = 0;
        assert(s@.subrange(0, 0) =~= Seq::<char>::empty());
        assert(s@.subrange(0, 0) =~= Seq::<char>::empty());
        while i < len
            invariant
                len == s@.len(),
                start <= i <= len,
                split_commas(s@.subrange(0, i as int)) == done.push(s@.subrange(start as int, i as int)),
                bad is None ==> parse_all::<T>(done) == Some(FlagList { items }@),
                bad matches Some(e) ==> exists|k: int|
                    0 <= k < done.len() && #[trigger] done[k] == e@ && T::parse_spec(e@) is None,
            decreases len - i,
        {
            let c = s.get_char(i);
            let ghost pre = s@.subrange(0, i as int);
            assert(s@.subrange(0, i + 1).drop_last() =~= pre);
            assert(s@.subrange(0, i + 1).last() == c);
            if c == ',' {
                let piece = s.substring_char(start, i);
                if bad.is_none() {
                    match T::parse_from_str(piece) {
                        Ok(v) => {
                            let ghost before = FlagList { items }@;
                            items.push(v);
                            assert(FlagList { items }@ =~= before.push(v@));
                        },
                        Err(_) => {
                            bad = Some(piece.to_owned());
                        },
                    }
                }
                proof {
                    let old_done = done;
                    done = done.push(piece@);
                    assert(done.drop_last() =~= old_done);
                    assert(done.last() == piece@);
                    if bad is Some {
                        let e = bad->Some_0;
                        if e@ != piece@ {
                            let k = choose|k: int| 0 <= k < old_done.len() && #[trigger] old_done[k] == e@ && T::parse_spec(e@) is None;
                            assert(done[k] == old_done[k]);
                        } else {
                            assert(done[old_done.len() as int] == e@);
                        }
                    }
                    assert(s@.subrange(i + 1, i + 1) =~= Seq::<char>::empty());
                }
                start = i + 1;
            } else {
                proof {
                    lemma_split_nonempty(pre);
                    assert(s@.subrange(start as int, i as int).push(c) =~= s@.subrange(start as int, i + 1));
                    assert(done.push(s@.subrange(start as int, i as int)).update(done.len() as int, s@.subrange(start as int, i + 1)) =~= done.push(s@.subrange(start as int, i + 1)));
                }
            }
            i = i + 1;
        }
        assert(s@.subrange(0, len as int) =~= s@);
        let piece = s.substring_char(start, len);
        let ghost all = done.push(piece@);
        assert(all.drop_last() =~= done);
        assert(all.last() == piece@);
        match bad {
            Some(e) => {
                proof {
                    let k = choose|k: int| 0 <= k < done.len() && #[trigger] done[k] == e@ && T::parse_spec(e@) is None;
                    assert(all[k] == done[k]);
                    lemma_parse_all::<T>(all);
                }
                Err(e)
            },
            None => match T::parse_from_str(piece) {
                Ok(v) => {
                    let ghost before = FlagList { items }@;
                    items.push(v);
                    assert(FlagList { items }@ =~= before.push(v@));
                    Ok(FlagList { items })
                },
                Err(_) => {
                    proof {
                        assert(all[done.len() as int] == piece@);
                    }
                    Err(piece.to_owned())
                },
            },
        }
    }
}

} // verus!
