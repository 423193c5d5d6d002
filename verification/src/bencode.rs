//! Bencode objects and an incremental byte-at-a-time parser.

use vstd::prelude::*;

verus! {

/// A bencode value, as the parser builds it.
pub enum BencodeObject {
    /// Placeholder inside a dictionary pair under construction.
    Vacant,
    /// Integer body: the raw bytes between `i` and `e`.
    Integer(Vec<u8>),
    /// Byte string: declared length, and the bytes once any were read.
    /// A zero-length string keeps `None`.
    Bytes(usize, Option<Vec<u8>>),
    List(Vec<BencodeObject>),
    /// Key-value pairs in order of appearance.
    Dictionary(Vec<(BencodeObject, BencodeObject)>),
}

/// The serialized form of a bencode object.
pub open spec fn spec_encode(o: BencodeObject) -> Seq<u8>
    decreases o,
{
    match o {
        BencodeObject::Vacant => Seq::empty(),
        BencodeObject::Integer(v) => seq![105u8] + v@ + seq![101u8],
        BencodeObject::Bytes(n, ov) => crate::bstr::spec_decimal(n as nat) + seq![58u8] + (match ov {
            Option::Some(v) => v@,
            Option::None => Seq::empty(),
        }),
        BencodeObject::List(items) => seq![108u8] + spec_encode_items(items@) + seq![101u8],
        BencodeObject::Dictionary(pairs) => seq![100u8] + spec_encode_pairs(pairs@) + seq![101u8],
    }
}

/// The concatenated serialized forms of a sequence of objects.
pub open spec fn spec_encode_items(items: Seq<BencodeObject>) -> Seq<u8>
    decreases items,
{
    if items.len() == 0 {
        Seq::empty()
    } else {
        spec_encode(items.first()) + spec_encode_items(items.drop_first())
    }
}

/// The concatenated serialized forms of a sequence of key-value pairs.
pub open spec fn spec_encode_pairs(pairs: Seq<(BencodeObject, BencodeObject)>) -> Seq<u8>
    decreases pairs,
{
    if pairs.len() == 0 {
        Seq::empty()
    } else {
        spec_encode(pairs.first().0) + spec_encode(pairs.first().1) + spec_encode_pairs(
            pairs.drop_first(),
        )
    }
}

} // verus!

verus! {

/// Parse failures.
#[derive(Clone, Copy, PartialEq, Eq, Structural, Debug)]
pub enum BencodeError {
    /// A byte that is no valid Unicode scalar was met where one was needed.
    UnknownCharacter,
    /// A character outside `0`..`9` was met where a digit was needed.
    NotADigit,
    /// The byte does not fit the grammar in the current state.
    Syntax,
}

/// Converts one byte to the character it denotes.  Every byte is a valid
/// Unicode scalar, so this always succeeds.
pub fn chr(x: u8) -> (r: Result<char, BencodeError>)
    ensures
        r == Ok::<char, BencodeError>(x as char),
{
    Ok(x as char)
}

/// Converts a decimal digit character to its value.
pub fn to_digit(x: char) -> (r: Result<usize, BencodeError>)
    ensures
        match r {
            Ok(d) => 48 <= x as u32 <= 57 && d == x as u32 - 48,
            Err(e) => !(48 <= x as u32 <= 57) && e == BencodeError::NotADigit,
        },
{
    let c = x as u32;
    if 48 <= c && c <= 57 {
        Ok((c - 48) as usize)
    } else {
        Err(BencodeError::NotADigit)
    }
}

/// The abstract shape of a bencode object.
#[verifier::ext_equal]
pub enum BValue {
    Vacant,
    Integer(Seq<u8>),
    Bytes(nat, Option<Seq<u8>>),
    List(Seq<BValue>),
    Dict(Seq<(BValue, BValue)>),
}

/// The abstract shape a concrete object stands for.
pub open spec fn bview(o: BencodeObject) -> BValue
    decreases o,
{
    match o {
        BencodeObject::Vacant => BValue::Vacant,
        BencodeObject::Integer(v) => BValue::Integer(v@),
        BencodeObject::Bytes(n, ov) => BValue::Bytes(
            n as nat,
            match ov {
                Option::Some(v) => Option::Some(v@),
                Option::None => Option::None,
            },
        ),
        BencodeObject::List(items) => BValue::List(bview_items(items@)),
        BencodeObject::Dictionary(pairs) => BValue::Dict(bview_pairs(pairs@)),
    }
}

/// The abstract shapes of a sequence of objects.
pub open spec fn bview_items(s: Seq<BencodeObject>) -> Seq<BValue>
    decreases s,
{
    if s.len() == 0 {
        Seq::empty()
    } else {
        bview_items(s.drop_last()).push(bview(s.last()))
    }
}

/// The abstract shapes of a sequence of key-value pairs.
pub open spec fn bview_pairs(s: Seq<(BencodeObject, BencodeObject)>) -> Seq<(BValue, BValue)>
    decreases s,
{
    if s.len() == 0 {
        Seq::empty()
    } else {
        bview_pairs(s.drop_last()).push((bview(s.last().0), bview(s.last().1)))
    }
}

/// `bview_items` maps element by element.
pub proof fn lemma_bview_items_index(s: Seq<BencodeObject>)
    ensures
        bview_items(s).len() == s.len(),
        forall|i: int| 0 <= i < s.len() ==> bview_items(s)[i] == bview(s[i]),
    decreases s.len(),
{
    if s.len() > 0 {
        lemma_bview_items_index(s.drop_last());
    }
}

/// `bview_pairs` maps pair by pair.
pub proof fn lemma_bview_pairs_index(s: Seq<(BencodeObject, BencodeObject)>)
    ensures
        bview_pairs(s).len() == s.len(),
        forall|i: int|
            0 <= i < s.len() ==> bview_pairs(s)[i] == (bview(s[i].0), bview(s[i].1)),
    decreases s.len(),
{
    if s.len() > 0 {
        lemma_bview_pairs_index(s.drop_last());
    }
}

/// Folds a completed object into its enclosing container: into the list on
/// top of the remaining stack, or into the open slot of the dictionary's
/// last key-value pair.  `None` is a grammar violation.
pub open spec fn spec_push(stack: Seq<BValue>) -> Option<Seq<BValue>> {
    if stack.len() < 2 {
        Option::None
    } else {
        let item = stack.last();
        let rest = stack.drop_last();
        match rest.last() {
            BValue::List(items) => Option::Some(
                rest.drop_last().push(BValue::List(items.push(item))),
            ),
            BValue::Dict(pairs) => {
                let need_new = pairs.len() == 0 || (!(pairs.last().0 is Vacant) && !(
                pairs.last().1 is Vacant));
                let base = if need_new {
                    pairs.push((BValue::Vacant, BValue::Vacant))
                } else {
                    pairs
                };
                let lp = base.last();
                if lp.0 is Vacant {
                    Option::Some(
                        rest.drop_last().push(
                            BValue::Dict(base.update(base.len() - 1, (item, lp.1))),
                        ),
                    )
                } else if lp.1 is Vacant {
                    Option::Some(
                        rest.drop_last().push(
                            BValue::Dict(base.update(base.len() - 1, (lp.0, item))),
                        ),
                    )
                } else {
                    Option::None
                }
            },
            _ => Option::None,
        }
    }
}

/// One byte of input against the parser state.  `None` is a grammar
/// violation (including a byte-string length that would not fit in memory).
pub open spec fn spec_next(stack: Seq<BValue>, x: u8) -> Option<Seq<BValue>> {
    if stack.len() == 0 {
        Option::Some(stack)
    } else {
        match stack.last() {
            BValue::Vacant => Option::None,
            BValue::Integer(v) => if x == 101 {
                spec_push(stack)
            } else {
                Option::Some(stack.update(stack.len() - 1, BValue::Integer(v.push(x))))
            },
            BValue::Bytes(n, ov) => match ov {
                Option::Some(v) => {
                    let st2 = stack.update(
                        stack.len() - 1,
                        BValue::Bytes(n, Option::Some(v.push(x))),
                    );
                    if v.push(x).len() == n {
                        spec_push(st2)
                    } else {
                        Option::Some(st2)
                    }
                },
                Option::None => {
                    if x == 58 {
                        if n == 0 {
                            spec_push(stack)
                        } else {
                            Option::Some(
                                stack.update(
                                    stack.len() - 1,
                                    BValue::Bytes(n, Option::Some(Seq::empty())),
                                ),
                            )
                        }
                    } else if 48 <= x <= 57 {
                        if n * 10 + (x - 48) > usize::MAX {
                            Option::None
                        } else {
                            Option::Some(
                                stack.update(
                                    stack.len() - 1,
                                    BValue::Bytes((n * 10 + (x - 48)) as nat, Option::None),
                                ),
                            )
                        }
                    } else {
                        Option::None
                    }
                },
            },
            BValue::List(_) | BValue::Dict(_) => {
                if x == 101 {
                    spec_push(stack)
                } else if x == 105 {
                    Option::Some(stack.push(BValue::Integer(Seq::empty())))
                } else if 48 <= x <= 57 {
                    Option::Some(stack.push(BValue::Bytes((x - 48) as nat, Option::None)))
                } else if x == 108 {
                    Option::Some(stack.push(BValue::List(Seq::empty())))
                } else if x == 100 {
                    Option::Some(stack.push(BValue::Dict(Seq::empty())))
                } else {
                    Option::None
                }
            },
        }
    }
}

/// The parser state after a whole byte string, from a fresh parser.
pub open spec fn spec_parse(bytes: Seq<u8>) -> Option<Seq<BValue>>
    decreases bytes.len(),
{
    if bytes.len() == 0 {
        Option::Some(seq![BValue::List(Seq::empty())])
    } else {
        match spec_parse(bytes.drop_last()) {
            Option::Some(st) => spec_next(st, bytes.last()),
            Option::None => Option::None,
        }
    }
}

/// Once the input has violated the grammar, no continuation repairs it.
pub proof fn lemma_parse_none_sticky(bytes: Seq<u8>, i: int, j: int)
    requires
        0 <= i <= j <= bytes.len(),
        spec_parse(bytes.subrange(0, i)) is None,
    ensures
        spec_parse(bytes.subrange(0, j)) is None,
    decreases j - i,
{
    if i < j {
        assert(bytes.subrange(0, i + 1).drop_last() =~= bytes.subrange(0, i));
        lemma_parse_none_sticky(bytes, i + 1, j);
    }
}

/// Incremental bencode parser: a stack of partly built objects, the root a
/// list that collects every completed top-level object.
pub struct BencodeParser {
    pub stack: Vec<BencodeObject>,
}

impl BencodeParser {
    /// The abstract stack.
    pub open spec fn view(&self) -> Seq<BValue> {
        bview_items(self.stack@)
    }

    /// The stack never empties: the root list stays at the bottom.
    pub open spec fn wf(&self) -> bool {
        self.stack@.len() >= 1
    }

    /// A fresh parser: just the root list.
    pub fn new() -> (r: BencodeParser)
        ensures
            r.wf(),
            r.view() == spec_parse(Seq::empty()).unwrap(),
    {
        let mut stack: Vec<BencodeObject> = Vec::new();
        stack.push(BencodeObject::List(Vec::new()));
        let r = BencodeParser { stack };
        proof {
            assert(r.stack@.drop_last() =~= Seq::<BencodeObject>::empty());
            assert(bview_items(Seq::<BencodeObject>::empty()) =~= Seq::<BValue>::empty());
            assert(bview(r.stack@.last()) =~~= BValue::List(Seq::empty()));
            assert(r.view() =~~= seq![BValue::List(Seq::empty())]);
        }
        r
    }

    /// Folds the completed top of the stack into its container.
    fn push(&mut self) -> (r: Result<(), BencodeError>)
        requires
            old(self).wf(),
        ensures
            final(self).wf(),
            match spec_push(old(self).view()) {
                Some(st) => r is Ok && final(self).view() == st,
                None => r is Err && final(self).view() == old(self).view(),
            },
    {
        let ghost pre = self.view();
        proof {
            lemma_bview_items_index(self.stack@);
        }
        if self.stack.len() < 2 {
            return Err(BencodeError::Syntax);
        }
        let item = match self.stack.pop() {
            Some(o) => o,
            None => {
                proof {
                    assert(false);
                }
                BencodeObject::Vacant
            },
        };
        let target = match self.stack.pop() {
            Some(o) => o,
            None => {
                proof {
                    assert(false);
                }
                BencodeObject::Vacant
            },
        };
        proof {
            assert(bview(item) == pre.last());
            assert(bview(target) == pre[pre.len() - 2]) by {
                lemma_bview_items_index(self.stack@.push(target).push(item));
                assert(self.stack@.push(target).push(item) =~= old(self).stack@);
            }
            assert(bview_items(self.stack@) =~~= pre.drop_last().drop_last()) by {
                lemma_bview_items_index(self.stack@);
                lemma_bview_items_index(old(self).stack@);
                assert(self.stack@ =~= old(self).stack@.drop_last().drop_last());
            }
        }
        let ghost rest2 = pre.drop_last().drop_last();
        match target {
            BencodeObject::List(mut items) => {
                let ghost items_view = bview_items(items@);
                let ghost pre_items = items@;
                items.push(item);
                proof {
                    assert(items@.drop_last() =~= pre_items);
                    assert(bview_items(items@) =~~= items_view.push(pre.last()));
                }
                self.stack.push(BencodeObject::List(items));
                proof {
                    let s = self.stack@;
                    assert(s.drop_last() =~= old(self).stack@.drop_last().drop_last());
                    assert(bview_items(s.drop_last()) =~~= rest2);
                    assert(bview(s.last()) =~~= BValue::List(items_view.push(pre.last())));
                    assert(self.view() == bview_items(s.drop_last()).push(bview(s.last())));
                    assert(pre[pre.len() - 2] =~~= BValue::List(items_view));
                    assert(self.view() =~~= spec_push(pre).unwrap());
                }
                Ok(())
            },
            BencodeObject::Dictionary(mut pairs) => {
                let ghost pairs_view = bview_pairs(pairs@);
                let need_new = if pairs.len() == 0 {
                    true
                } else {
                    let lp = &pairs[pairs.len() - 1];
                    !matches!(lp.0, BencodeObject::Vacant) && !matches!(
                        lp.1,
                        BencodeObject::Vacant,
                    )
                };
                proof {
                    lemma_bview_pairs_index(pairs@);
                    assert(need_new == (pairs_view.len() == 0 || (!(pairs_view.last().0 is Vacant)
                        && !(pairs_view.last().1 is Vacant))));
                }
                let ghost base = if need_new {
                    pairs_view.push((BValue::Vacant, BValue::Vacant))
                } else {
                    pairs_view
                };
                if need_new {
                    let ghost pre_pairs = pairs@;
                    pairs.push((item, BencodeObject::Vacant));
                    proof {
                        assert(pairs@.drop_last() =~= pre_pairs);
                        assert(bview_pairs(pairs@.drop_last()) == bview_pairs(pre_pairs));
                        assert(bview(pairs@.last().0) == pre.last());
                        assert(bview(pairs@.last().1) == BValue::Vacant);
                        assert(bview_pairs(pairs@) =~~= pairs_view.push(
                            (pre.last(), BValue::Vacant),
                        ));
                        assert(base.update(base.len() - 1, (pre.last(), BValue::Vacant))
                            =~~= pairs_view.push((pre.last(), BValue::Vacant)));
                    }
                } else {
                    let ghost full_pairs = pairs@;
                    let lastp = match pairs.pop() {
                        Some(p) => p,
                        None => {
                            proof {
                                assert(false);
                            }
                            (BencodeObject::Vacant, BencodeObject::Vacant)
                        },
                    };
                    proof {
                        assert(pairs@ =~= full_pairs.drop_last());
                        assert(bview(lastp.0) == pairs_view.last().0 && bview(lastp.1)
                            == pairs_view.last().1) by {
                            lemma_bview_pairs_index(full_pairs);
                        }
                    }
                    let ghost popped_view = bview_pairs(pairs@);
                    if matches!(lastp.0, BencodeObject::Vacant) {
                        let v = lastp.1;
                        let ghost pre_pairs = pairs@;
                        pairs.push((item, v));
                        proof {
                            assert(pairs@.drop_last() =~= pre_pairs);
                            assert(bview_pairs(pairs@) =~~= popped_view.push(
                                (pre.last(), pairs_view.last().1),
                            ));
                            assert(base.update(base.len() - 1, (pre.last(), base.last().1))
                                =~~= popped_view.push((pre.last(), pairs_view.last().1)));
                        }
                    } else {
                        proof {
                            assert(pairs_view.last().1 is Vacant);
                        }
                        let k = lastp.0;
                        let ghost pre_pairs = pairs@;
                        pairs.push((k, item));
                        proof {
                            assert(pairs@.drop_last() =~= pre_pairs);
                            assert(bview_pairs(pairs@) =~~= popped_view.push(
                                (pairs_view.last().0, pre.last()),
                            ));
                            assert(base.update(base.len() - 1, (base.last().0, pre.last()))
                                =~~= popped_view.push((pairs_view.last().0, pre.last())));
                        }
                    }
                }
                self.stack.push(BencodeObject::Dictionary(pairs));
                proof {
                    let s = self.stack@;
                    assert(s.drop_last() =~= old(self).stack@.drop_last().drop_last());
                    assert(bview_items(s.drop_last()) =~~= rest2);
                    assert(self.view() == bview_items(s.drop_last()).push(bview(s.last())));
                    assert(pre[pre.len() - 2] =~~= BValue::Dict(pairs_view));
                    assert(self.view() =~~= spec_push(pre).unwrap());
                }
                Ok(())
            },
            other => {
                self.stack.push(other);
                self.stack.push(item);
                proof {
                    assert(self.stack@ =~= old(self).stack@);
                }
                Err(BencodeError::Syntax)
            },
        }
    }

    /// Feeds one byte to the parser.
    pub fn next(&mut self, x: u8) -> (r: Result<(), BencodeError>)
        requires
            old(self).wf(),
        ensures
            final(self).wf(),
            match spec_next(old(self).view(), x) {
                Some(st) => r is Ok && final(self).view() == st,
                None => r is Err && final(self).view() == old(self).view(),
            },
    {
        let ghost pre = self.view();
        let top = match self.stack.pop() {
            Some(o) => o,
            None => {
                proof {
                    assert(false);
                }
                BencodeObject::Vacant
            },
        };
        proof {
            assert(self.stack@ =~= old(self).stack@.drop_last());
            assert(bview(top) == pre.last());
            assert(bview_items(self.stack@) =~~= pre.drop_last());
        }
        match top {
            BencodeObject::Vacant => {
                self.stack.push(BencodeObject::Vacant);
                proof {
                    assert(self.stack@ =~= old(self).stack@);
                }
                Err(BencodeError::Syntax)
            },
            BencodeObject::Integer(mut v) => {
                if x == 101 {
                    self.stack.push(BencodeObject::Integer(v));
                    proof {
                        assert(self.stack@ =~= old(self).stack@);
                    }
                    self.push()
                } else {
                    let ghost v0 = v@;
                    v.push(x);
                    self.stack.push(BencodeObject::Integer(v));
                    proof {
                        assert(bview(self.stack@.last()) =~~= BValue::Integer(v0.push(x)));
                        assert(self.stack@.drop_last() =~= old(self).stack@.drop_last());
                        assert(self.view() == bview_items(self.stack@.drop_last()).push(
                            bview(self.stack@.last()),
                        ));
                        assert(pre.update(pre.len() - 1, BValue::Integer(v0.push(x)))
                            =~~= pre.drop_last().push(BValue::Integer(v0.push(x))));
                        assert(self.view() =~~= pre.update(
                            pre.len() - 1,
                            BValue::Integer(v0.push(x)),
                        ));
                    }
                    Ok(())
                }
            },
            BencodeObject::Bytes(n, body) => {
                match body {
                    Some(mut v) => {
                        let ghost v0 = v@;
                        v.push(x);
                        let complete = v.len() == n;
                        self.stack.push(BencodeObject::Bytes(n, Some(v)));
                        proof {
                            assert(bview(self.stack@.last()) =~~= BValue::Bytes(
                                n as nat,
                                Option::Some(v0.push(x)),
                            ));
                            assert(self.stack@.drop_last() =~= old(self).stack@.drop_last());
                            assert(self.view() == bview_items(self.stack@.drop_last()).push(
                                bview(self.stack@.last()),
                            ));
                            assert(pre.update(pre.len() - 1, BValue::Bytes(n as nat, Option::Some(
                                v0.push(x),
                            ))) =~~= pre.drop_last().push(BValue::Bytes(n as nat, Option::Some(
                                v0.push(x),
                            ))));
                            assert(self.view() =~~= pre.update(
                                pre.len() - 1,
                                BValue::Bytes(n as nat, Option::Some(v0.push(x))),
                            ));
                        }
                        let ghost st2v = self.view();
                        if complete {
                            match self.push() {
                                Ok(()) => Ok(()),
                                Err(e) => {
                                    // The grammar refused the fold: put the
                                    // byte string back as it stood before
                                    // this byte arrived.
                                    let ghost errstack = self.stack@;
                                    let top = match self.stack.pop() {
                                        Some(o) => o,
                                        None => {
                                            proof {
                                                assert(false);
                                            }
                                            BencodeObject::Vacant
                                        },
                                    };
                                    proof {
                                        assert(bview_items(errstack) =~~= st2v);
                                        assert(bview_items(errstack) == bview_items(
                                            errstack.drop_last(),
                                        ).push(bview(errstack.last())));
                                        assert(bview_items(errstack.drop_last()).push(
                                            bview(errstack.last()),
                                        ).drop_last() =~~= bview_items(errstack.drop_last()));
                                        assert(bview_items(self.stack@) =~~= st2v.drop_last());
                                        assert(bview(top) == st2v.last());
                                        assert(bview(top) =~~= BValue::Bytes(
                                            n as nat,
                                            Option::Some(v0.push(x)),
                                        ));
                                        assert(st2v.drop_last() =~~= pre.drop_last());
                                    }
                                    let ghost popped_stack = self.stack@;
                                    match top {
                                        BencodeObject::Bytes(n2, Some(mut v2)) => {
                                            let dropped = v2.pop();
                                            proof {
                                                assert(v2@ =~= v0);
                                            }
                                            self.stack.push(BencodeObject::Bytes(n2, Some(v2)));
                                            proof {
                                                assert(self.stack@.drop_last() =~= popped_stack);
                                                assert(bview(self.stack@.last()) =~~= pre.last());
                                                assert(self.view() == bview_items(
                                                    self.stack@.drop_last(),
                                                ).push(bview(self.stack@.last())));
                                                assert(pre.drop_last().push(pre.last())
                                                    =~~= pre);
                                                assert(self.view() =~~= pre);
                                            }
                                        },
                                        other => {
                                            proof {
                                                assert(false);
                                            }
                                            self.stack.push(other);
                                        },
                                    }
                                    Err(e)
                                },
                            }
                        } else {
                            Ok(())
                        }
                    },
                    None => {
                        if x == 58 {
                            if n == 0 {
                                self.stack.push(BencodeObject::Bytes(n, None));
                                proof {
                                    assert(self.stack@ =~= old(self).stack@);
                                }
                                self.push()
                            } else {
                                self.stack.push(BencodeObject::Bytes(n, Some(Vec::new())));
                                proof {
                                    assert(bview(self.stack@.last()) =~~= BValue::Bytes(
                                        n as nat,
                                        Option::Some(Seq::empty()),
                                    ));
                                    assert(self.stack@.drop_last() =~= old(
                                        self,
                                    ).stack@.drop_last());
                                    assert(self.view() == bview_items(
                                        self.stack@.drop_last(),
                                    ).push(bview(self.stack@.last())));
                                    assert(pre.update(pre.len() - 1, BValue::Bytes(
                                        n as nat,
                                        Option::Some(Seq::empty()),
                                    )) =~~= pre.drop_last().push(BValue::Bytes(
                                        n as nat,
                                        Option::Some(Seq::empty()),
                                    )));
                                    assert(self.view() =~~= pre.update(
                                        pre.len() - 1,
                                        BValue::Bytes(n as nat, Option::Some(Seq::empty())),
                                    ));
                                }
                                Ok(())
                            }
                        } else if 48 <= x && x <= 57 {
                            let d = (x - 48) as usize;
                            let wide = (n as u128) * 10 + (d as u128);
                            if wide > (usize::MAX as u128) {
                                self.stack.push(BencodeObject::Bytes(n, None));
                                proof {
                                    assert(self.stack@ =~= old(self).stack@);
                                }
                                Err(BencodeError::Syntax)
                            } else {
                                let n2 = n * 10 + d;
                                self.stack.push(BencodeObject::Bytes(n2, None));
                                proof {
                                    assert(bview(self.stack@.last()) =~~= BValue::Bytes(
                                        n2 as nat,
                                        Option::None,
                                    ));
                                    assert(self.stack@.drop_last() =~= old(
                                        self,
                                    ).stack@.drop_last());
                                    assert(self.view() == bview_items(
                                        self.stack@.drop_last(),
                                    ).push(bview(self.stack@.last())));
                                    assert(pre.update(pre.len() - 1, BValue::Bytes(
                                        n2 as nat,
                                        Option::None,
                                    )) =~~= pre.drop_last().push(BValue::Bytes(
                                        n2 as nat,
                                        Option::None,
                                    )));
                                    assert(self.view() =~~= pre.update(
                                        pre.len() - 1,
                                        BValue::Bytes(n2 as nat, Option::None),
                                    ));
                                }
                                Ok(())
                            }
                        } else {
                            self.stack.push(BencodeObject::Bytes(n, None));
                            proof {
                                assert(self.stack@ =~= old(self).stack@);
                            }
                            Err(BencodeError::Syntax)
                        }
                    },
                }
            },
            other => {
                // A list or dictionary is open: a byte either closes it,
                // or begins a child object.
                self.stack.push(other);
                proof {
                    assert(self.stack@ =~= old(self).stack@);
                }
                if x == 101 {
                    self.push()
                } else if x == 105 {
                    self.stack.push(BencodeObject::Integer(Vec::new()));
                    proof {
                        assert(bview(self.stack@.last()) =~~= BValue::Integer(Seq::empty()));
                        assert(self.stack@.drop_last() =~= old(self).stack@);
                        assert(self.view() == bview_items(self.stack@.drop_last()).push(
                            bview(self.stack@.last()),
                        ));
                        assert(self.view() =~~= pre.push(BValue::Integer(Seq::empty())));
                    }
                    Ok(())
                } else if 48 <= x && x <= 57 {
                    self.stack.push(BencodeObject::Bytes((x - 48) as usize, None));
                    proof {
                        assert(bview(self.stack@.last()) =~~= BValue::Bytes(
                            (x - 48) as nat,
                            Option::None,
                        ));
                        assert(self.stack@.drop_last() =~= old(self).stack@);
                        assert(self.view() == bview_items(self.stack@.drop_last()).push(
                            bview(self.stack@.last()),
                        ));
                        assert(self.view() =~~= pre.push(
                            BValue::Bytes((x - 48) as nat, Option::None),
                        ));
                    }
                    Ok(())
                } else if x == 108 {
                    self.stack.push(BencodeObject::List(Vec::new()));
                    proof {
                        assert(bview(self.stack@.last()) =~~= BValue::List(Seq::empty()));
                        assert(self.stack@.drop_last() =~= old(self).stack@);
                        assert(self.view() == bview_items(self.stack@.drop_last()).push(
                            bview(self.stack@.last()),
                        ));
                        assert(self.view() =~~= pre.push(BValue::List(Seq::empty())));
                    }
                    Ok(())
                } else if x == 100 {
                    self.stack.push(BencodeObject::Dictionary(Vec::new()));
                    proof {
                        assert(bview(self.stack@.last()) =~~= BValue::Dict(Seq::empty()));
                        assert(self.stack@.drop_last() =~= old(self).stack@);
                        assert(self.view() == bview_items(self.stack@.drop_last()).push(
                            bview(self.stack@.last()),
                        ));
                        assert(self.view() =~~= pre.push(BValue::Dict(Seq::empty())));
                    }
                    Ok(())
                } else {
                    Err(BencodeError::Syntax)
                }
            },
        }
    }
}

/// Parses a whole byte string.  The root object is a list holding every
/// completed top-level object.
pub fn parse_bencode(value: &[u8]) -> (r: Result<BencodeObject, BencodeError>)
    ensures
        match spec_parse(value@) {
            Some(st) => r is Ok && st.len() >= 1 && bview(r.unwrap()) == st.last(),
            None => r is Err,
        },
{
    let mut parser = BencodeParser::new();
    proof {
        assert(value@.subrange(0, 0) =~= Seq::<u8>::empty());
    }
    let mut i: usize = 0;
    while i < value.len()
        invariant
            i <= value@.len(),
            parser.wf(),
            spec_parse(value@.subrange(0, i as int)) == Some(parser.view()),
        decreases value@.len() - i,
    {
        proof {
            assert(value@.subrange(0, i + 1 as int).drop_last() =~= value@.subrange(0, i as int));
        }
        let b = value[i];
        match parser.next(b) {
            Ok(()) => {},
            Err(e) => {
                proof {
                    lemma_parse_none_sticky(value@, i + 1, value@.len() as int);
                    assert(value@.subrange(0, value@.len() as int) =~= value@);
                }
                return Err(e);
            },
        }
        i = i + 1;
    }
    proof {
        assert(value@.subrange(0, value@.len() as int) =~= value@);
        lemma_bview_items_index(parser.stack@);
    }
    let root = match parser.stack.pop() {
        Some(o) => o,
        None => {
            proof {
                assert(false);
            }
            BencodeObject::Vacant
        },
    };
    Ok(root)
}

/// Appending an object to a sequence appends its serialized form.
pub proof fn lemma_encode_items_snoc(s: Seq<BencodeObject>, el: BencodeObject)
    ensures
        spec_encode_items(s.push(el)) == spec_encode_items(s) + spec_encode(el),
    decreases s.len(),
{
    if s.len() == 0 {
        assert(s.push(el).drop_first() =~= Seq::<BencodeObject>::empty());
        assert(s.push(el).first() == el);
        assert(spec_encode_items(s.push(el)) == spec_encode(el) + spec_encode_items(
            s.push(el).drop_first(),
        ));
        assert(spec_encode_items(s.push(el)) =~= spec_encode_items(s) + spec_encode(el));
    } else {
        assert(s.push(el).drop_first() =~= s.drop_first().push(el));
        lemma_encode_items_snoc(s.drop_first(), el);
        assert(spec_encode(s.first()) + (spec_encode_items(s.drop_first()) + spec_encode(el))
            =~= (spec_encode(s.first()) + spec_encode_items(s.drop_first())) + spec_encode(el));
    }
}

/// Appending a pair to a sequence appends both serialized forms.
pub proof fn lemma_encode_pairs_snoc(s: Seq<(BencodeObject, BencodeObject)>, el: (BencodeObject, BencodeObject))
    ensures
        spec_encode_pairs(s.push(el)) == spec_encode_pairs(s) + spec_encode(el.0) + spec_encode(
            el.1,
        ),
    decreases s.len(),
{
    if s.len() == 0 {
        assert(s.push(el).drop_first() =~= Seq::<(BencodeObject, BencodeObject)>::empty());
        assert(s.push(el).first() == el);
        assert(spec_encode_pairs(s.push(el)) == spec_encode(el.0) + spec_encode(el.1)
            + spec_encode_pairs(s.push(el).drop_first()));
        assert(spec_encode_pairs(s.push(el)) =~= spec_encode_pairs(s) + spec_encode(el.0)
            + spec_encode(el.1));
    } else {
        assert(s.push(el).drop_first() =~= s.drop_first().push(el));
        lemma_encode_pairs_snoc(s.drop_first(), el);
        assert(spec_encode(s.first().0) + spec_encode(s.first().1) + (spec_encode_pairs(
            s.drop_first(),
        ) + spec_encode(el.0) + spec_encode(el.1)) =~= (spec_encode(s.first().0) + spec_encode(
            s.first().1,
        ) + spec_encode_pairs(s.drop_first())) + spec_encode(el.0) + spec_encode(el.1));
    }
}

impl BencodeObject {
    /// Serializes this object.
    #[verifier::loop_isolation(false)]
    pub fn encode(&self) -> (r: Vec<u8>)
        ensures
            r@ == spec_encode(*self),
        decreases *self,
    {
        let mut out: Vec<u8> = Vec::new();
        match self {
            BencodeObject::Vacant => {
                proof {
                    assert(out@ =~= spec_encode(*self));
                }
            },
            BencodeObject::Integer(v) => {
                out.push(105);
                out.extend_from_slice(v.as_slice());
                out.push(101);
                proof {
                    assert(out@ =~= seq![105u8] + v@ + seq![101u8]);
                }
            },
            BencodeObject::Bytes(n, ov) => {
                let dec = crate::bstr::u64_to_decimal(*n as u64);
                out.extend_from_slice(dec.as_slice());
                out.push(58);
                match ov {
                    Some(v) => {
                        out.extend_from_slice(v.as_slice());
                        proof {
                            assert(out@ =~= crate::bstr::spec_decimal(*n as nat) + seq![58u8]
                                + v@);
                        }
                    },
                    None => {
                        proof {
                            assert(out@ =~= crate::bstr::spec_decimal(*n as nat) + seq![58u8]
                                + Seq::<u8>::empty());
                        }
                    },
                }
            },
            BencodeObject::List(items) => {
                out.push(108);
                let mut i: usize = 0;
                while i < items.len()
                    invariant
                        i <= items@.len(),
                        out@ == seq![108u8] + spec_encode_items(items@.subrange(0, i as int)),
                    decreases items@.len() - i,
                {
                    proof {
                        assert(decreases_to!(*self => (*self)->List_0));
                        assert((*self)->List_0 == *items);
                        assert(decreases_to!(*items => items@));
                        assert(decreases_to!(items@ => items@[i as int]));
                        assert(decreases_to!(*self => items@[i as int]));
                    }
                    let piece = items[i].encode();
                    out.extend_from_slice(piece.as_slice());
                    proof {
                        assert(items@.subrange(0, i + 1 as int) =~= items@.subrange(
                            0,
                            i as int,
                        ).push(items@[i as int]));
                        lemma_encode_items_snoc(items@.subrange(0, i as int), items@[i as int]);
                        assert(seq![108u8] + (spec_encode_items(items@.subrange(0, i as int))
                            + spec_encode(items@[i as int])) =~= (seq![108u8]
                            + spec_encode_items(items@.subrange(0, i as int))) + spec_encode(
                            items@[i as int],
                        ));
                    }
                    i = i + 1;
                }
                out.push(101);
                proof {
                    assert(items@.subrange(0, items@.len() as int) =~= items@);
                    assert(out@ =~= seq![108u8] + spec_encode_items(items@) + seq![101u8]);
                }
            },
            BencodeObject::Dictionary(pairs) => {
                out.push(100);
                let mut i: usize = 0;
                while i < pairs.len()
                    invariant
                        i <= pairs@.len(),
                        out@ == seq![100u8] + spec_encode_pairs(pairs@.subrange(0, i as int)),
                    decreases pairs@.len() - i,
                {
                    proof {
                        assert(decreases_to!(*self => (*self)->Dictionary_0));
                        assert((*self)->Dictionary_0 == *pairs);
                        assert(decreases_to!(*pairs => pairs@));
                        assert(decreases_to!(pairs@ => pairs@[i as int]));
                        assert(decreases_to!(pairs@[i as int] => pairs@[i as int].0));
                        assert(decreases_to!(pairs@[i as int] => pairs@[i as int].1));
                        assert(decreases_to!(*self => pairs@[i as int].0));
                        assert(decreases_to!(*self => pairs@[i as int].1));
                    }
                    let kp = pairs[i].0.encode();
                    out.extend_from_slice(kp.as_slice());
                    let vp = pairs[i].1.encode();
                    out.extend_from_slice(vp.as_slice());
                    proof {
                        assert(pairs@.subrange(0, i + 1 as int) =~= pairs@.subrange(
                            0,
                            i as int,
                        ).push(pairs@[i as int]));
                        lemma_encode_pairs_snoc(pairs@.subrange(0, i as int), pairs@[i as int]);
                        assert(seq![100u8] + (spec_encode_pairs(pairs@.subrange(0, i as int))
                            + spec_encode(pairs@[i as int].0) + spec_encode(pairs@[i as int].1))
                            =~= ((seq![100u8] + spec_encode_pairs(pairs@.subrange(0, i as int)))
                            + spec_encode(pairs@[i as int].0)) + spec_encode(
                            pairs@[i as int].1,
                        ));
                    }
                    i = i + 1;
                }
                out.push(101);
                proof {
                    assert(pairs@.subrange(0, pairs@.len() as int) =~= pairs@);
                    assert(out@ =~= seq![100u8] + spec_encode_pairs(pairs@) + seq![101u8]);
                }
            },
        }
        out
    }
}

/// The decimal value of an all-digit byte string.
pub open spec fn spec_dec_value(s: Seq<u8>) -> nat
    decreases s.len(),
{
    if s.len() == 0 {
        0
    } else {
        (spec_dec_value(s.drop_last()) * 10 + (s.last() - 48)) as nat
    }
}

/// Whether a byte string is a plain nonempty run of decimal digits.
pub open spec fn spec_all_digits(s: Seq<u8>) -> bool {
    s.len() > 0 && forall|i: int| 0 <= i < s.len() ==> 48 <= #[trigger] s[i] <= 57
}

/// Reads a nonnegative decimal integer body, as the announce response
/// integers are read.  `None` when the body is empty, holds a non-digit, or
/// does not fit.
pub fn parse_u64_digits(v: &Vec<u8>) -> (r: Option<u64>)
    ensures
        match r {
            Some(n) => spec_all_digits(v@) && n == spec_dec_value(v@) && spec_dec_value(v@)
                <= u64::MAX,
            None => !spec_all_digits(v@) || spec_dec_value(v@) > u64::MAX,
        },
{
    if v.len() == 0 {
        return None;
    }
    let mut acc: u64 = 0;
    let mut i: usize = 0;
    while i < v.len()
        invariant
            i <= v@.len(),
            forall|j: int| 0 <= j < i ==> 48 <= #[trigger] v@[j] <= 57,
            acc == spec_dec_value(v@.subrange(0, i as int)),
        decreases v@.len() - i,
    {
        let b = v[i];
        if b < 48 || b > 57 {
            proof {
                assert(!(48 <= v@[i as int] <= 57));
            }
            return None;
        }
        let wide = (acc as u128) * 10 + ((b - 48) as u128);
        proof {
            assert(v@.subrange(0, i + 1 as int).drop_last() =~= v@.subrange(0, i as int));
        }
        if wide > (u64::MAX as u128) {
            proof {
                if spec_all_digits(v@) {
                    lemma_dec_value_grows(v@, i + 1, v@.len() as int);
                    assert(v@.subrange(0, v@.len() as int) =~= v@);
                }
            }
            return None;
        }
        acc = (wide as u64);
        i = i + 1;
    }
    proof {
        assert(v@.subrange(0, v@.len() as int) =~= v@);
    }
    Some(acc)
}

/// A longer digit prefix never has a smaller value.
pub proof fn lemma_dec_value_grows(s: Seq<u8>, i: int, j: int)
    requires
        0 <= i <= j <= s.len(),
        forall|k: int| 0 <= k < j ==> 48 <= #[trigger] s[k],
    ensures
        spec_dec_value(s.subrange(0, j)) >= spec_dec_value(s.subrange(0, i)),
    decreases j - i,
{
    if i < j {
        lemma_dec_value_grows(s, i, j - 1);
        assert(s.subrange(0, j).drop_last() =~= s.subrange(0, j - 1));
        assert(spec_dec_value(s.subrange(0, j)) >= spec_dec_value(s.subrange(0, j - 1)));
    }
}

} // verus!
