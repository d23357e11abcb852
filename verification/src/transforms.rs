//! Dictionary word transforms: each transform wraps a dictionary word in a
//! fixed prefix and suffix and applies a rule to the word itself — copied
//! verbatim, truncated at either end, or case-mapped under the format's
//! pseudo-UTF-8 uppercase rule.

use vstd::prelude::*;

verus! {

/// Word transformation rules.
#[derive(Debug, Clone, Copy, PartialEq, Eq, Structural)]
pub enum WordTransformType {
    /// The word is copied to the output as-is.
    Identity,

    /// The first pseudo-UTF-8 character (1-3 bytes) of the word is
    /// uppercased.
    UppercaseFirst,

    /// All pseudo-UTF-8 characters of the word are uppercased.
    UppercaseAll,

    /// Copy the word, except for the last few bytes.
    OmitLast(u8),

    /// Copy the word, except for the first few bytes.
    OmitFirst(u8),
}

/// The uppercase mapping for a single ASCII-range byte.
pub open spec fn up1(c: u8) -> u8 {
    if 97 <= c <= 122 {
        c ^ 32
    } else {
        c
    }
}

/// The pseudo-UTF-8 uppercase rule applied to every character group: a lead
/// byte below 192 stands alone; below 224 it heads a two-byte group whose
/// second byte is flipped; otherwise a three-byte group whose third byte is
/// flipped. A truncated trailing group is left unchanged.
pub open spec fn upper_all(s: Seq<u8>) -> Seq<u8>
    decreases s.len(),
{
    if s.len() == 0 {
        s
    } else {
        let c = s[0];
        if c < 192 {
            seq![up1(c)] + upper_all(s.skip(1))
        } else if c < 224 {
            if s.len() >= 2 {
                seq![c, s[1] ^ 32] + upper_all(s.skip(2))
            } else {
                s
            }
        } else {
            if s.len() >= 3 {
                seq![c, s[1], s[2] ^ 5] + upper_all(s.skip(3))
            } else {
                s
            }
        }
    }
}

/// The same rule applied to the first character group only.
pub open spec fn upper_first(s: Seq<u8>) -> Seq<u8> {
    if s.len() == 0 {
        s
    } else {
        let c = s[0];
        if c < 192 {
            seq![up1(c)] + s.skip(1)
        } else if c < 224 {
            if s.len() >= 2 {
                seq![c, s[1] ^ 32] + s.skip(2)
            } else {
                s
            }
        } else {
            if s.len() >= 3 {
                seq![c, s[1], s[2] ^ 5] + s.skip(3)
            } else {
                s
            }
        }
    }
}

/// What a transform rule makes of a word.
pub open spec fn transformed_word(t: WordTransformType, src: Seq<u8>) -> Seq<u8> {
    match t {
        WordTransformType::Identity => src,
        WordTransformType::UppercaseFirst => upper_first(src),
        WordTransformType::UppercaseAll => upper_all(src),
        WordTransformType::OmitFirst(n) => src.skip(n as int),
        WordTransformType::OmitLast(n) => src.take(src.len() - n as int),
    }
}

/// The complete output of a transform: prefix, transformed word, suffix.
pub open spec fn spec_transform(
    prefix: Seq<u8>,
    t: WordTransformType,
    suffix: Seq<u8>,
    src: Seq<u8>,
) -> Seq<u8> {
    prefix + transformed_word(t, src) + suffix
}

/// A word transform definition used to generate variants of a dictionary
/// word in the output stream.
#[derive(Debug, Clone, PartialEq, Eq)]
pub struct Transform {
    pub prefix: Vec<u8>,
    pub transform: WordTransformType,
    pub suffix: Vec<u8>,
}

/// A copy of `src[from..to]` as a fresh vector.
fn sub_vec(src: &Vec<u8>, from: usize, to: usize) -> (v: Vec<u8>)
    requires
        from <= to <= src.len(),
    ensures
        v@ == src@.subrange(from as int, to as int),
{
    let mut v: Vec<u8> = Vec::new();
    let mut i: usize = from;
    while i < to
        invariant
            from <= i <= to <= src.len(),
            v@.len() == i - from,
            forall|k: int| 0 <= k < v@.len() ==> v@[k] == src@[from + k],
        decreases to - i,
    {
        let b = src[i];
        v.push(b);
        i = i + 1;
    }
    proof {
        assert(v@ =~= src@.subrange(from as int, to as int));
    }
    v
}

impl Transform {
    /// Copies `src` into `dst` starting at `offs`; `dst` must be large
    /// enough to hold it.
    fn copy(src: &Vec<u8>, dst: &mut Vec<u8>, offs: usize)
        requires
            offs + src.len() <= old(dst).len(),
        ensures
            final(dst)@.len() == old(dst)@.len(),
            forall|k: int|
                0 <= k < final(dst)@.len() ==> (#[trigger] final(dst)@[k]) == if offs <= k < offs
                    + src@.len() {
                    src@[k - offs]
                } else {
                    old(dst)@[k]
                },
    {
        let n = src.len();
        let mut i: usize = 0;
        while i < n
            invariant
                n == src.len(),
                offs + n <= dst.len(),
                dst@.len() == old(dst)@.len(),
                i <= n,
                forall|k: int|
                    0 <= k < dst@.len() ==> (#[trigger] dst@[k]) == if offs <= k < offs + i {
                        src@[k - offs]
                    } else {
                        old(dst)@[k]
                    },
            decreases n - i,
        {
            let b = src[i];
            dst[offs + i] = b;
            i = i + 1;
        }
    }

    /// Applies one character group of the uppercase rule at index `i`,
    /// returning the group width, or zero when the trailing group is
    /// truncated and nothing more can be done.
    fn upper_group_at(word: &mut Vec<u8>, i: usize) -> (g: usize)
        requires
            i < old(word).len(),
        ensures
            final(word)@.len() == old(word)@.len(),
            forall|k: int| 0 <= k < i ==> final(word)@[k] == old(word)@[k],
            g == 0 ==> final(word)@ == old(word)@ && upper_all(old(word)@.skip(i as int)) == old(
                word,
            )@.skip(i as int) && upper_first(old(word)@.skip(i as int)) == old(word)@.skip(
                i as int,
            ),
            g > 0 ==> {
                &&& i + g <= final(word)@.len()
                &&& final(word)@.skip(i + g) == old(word)@.skip(i + g)
                &&& upper_first(old(word)@.skip(i as int)) == final(word)@.subrange(
                    i as int,
                    i + g,
                ) + old(word)@.skip(i + g)
                &&& upper_all(old(word)@.skip(i as int)) == final(word)@.subrange(i as int, i + g)
                    + upper_all(old(word)@.skip(i + g))
            },
    {
        let ghost w0 = word@;
        let ghost t = w0.skip(i as int);
        proof {
            assert(t[0] == w0[i as int]);
        }
        let c = word[i];
        if c < 192 {
            if 97 <= c && c <= 122 {
                word[i] = c ^ 32;
            }
            proof {
                assert(word@.skip(i + 1) =~= w0.skip(i + 1));
                assert(t.skip(1) =~= w0.skip(i + 1));
                assert(word@.subrange(i as int, i + 1) =~= seq![up1(c)]);
                assert(upper_all(t) == seq![up1(c)] + upper_all(t.skip(1)));
                assert(upper_first(t) == seq![up1(c)] + t.skip(1));
            }
            1
        } else if c < 224 {
            if word.len() - i > 1 {
                let b = word[i + 1];
                word[i + 1] = b ^ 32;
                proof {
                    assert(t.len() >= 2);
                    assert(t[1] == w0[i + 1]);
                    assert(word@.skip(i + 2) =~= w0.skip(i + 2));
                    assert(t.skip(2) =~= w0.skip(i + 2));
                    assert(word@.subrange(i as int, i + 2) =~= seq![c, b ^ 32]);
                    assert(upper_all(t) == seq![c, t[1] ^ 32] + upper_all(t.skip(2)));
                    assert(upper_first(t) == seq![c, t[1] ^ 32] + t.skip(2));
                }
                2
            } else {
                proof {
                    assert(t.len() == 1);
                    assert(upper_all(t) == t);
                    assert(upper_first(t) == t);
                }
                0
            }
        } else {
            if word.len() - i > 2 {
                let b = word[i + 2];
                word[i + 2] = b ^ 5;
                proof {
                    assert(t.len() >= 3);
                    assert(t[1] == w0[i + 1]);
                    assert(t[2] == w0[i + 2]);
                    assert(word@.skip(i + 3) =~= w0.skip(i + 3));
                    assert(t.skip(3) =~= w0.skip(i + 3));
                    assert(word@.subrange(i as int, i + 3) =~= seq![c, w0[i + 1], b ^ 5]);
                    assert(upper_all(t) == seq![c, t[1], t[2] ^ 5] + upper_all(t.skip(3)));
                    assert(upper_first(t) == seq![c, t[1], t[2] ^ 5] + t.skip(3));
                }
                3
            } else {
                proof {
                    assert(t.len() <= 2);
                    assert(upper_all(t) == t);
                    assert(upper_first(t) == t);
                }
                0
            }
        }
    }

    /// The format's simplified uppercase rule over a pseudo-UTF-8
    /// interpretation of a byte array, applied to the first character group
    /// or to every group.
    pub fn to_uppercase(word: &mut Vec<u8>, first_char_only: bool)
        ensures
            final(word)@ == if first_char_only {
                upper_first(old(word)@)
            } else {
                upper_all(old(word)@)
            },
    {
        let ghost w0 = word@;
        if first_char_only {
            if word.len() > 0 {
                let g = Transform::upper_group_at(word, 0);
                proof {
                    assert(w0.skip(0) =~= w0);
                    if g > 0 {
                        assert(word@ =~= word@.subrange(0, g as int) + word@.skip(g as int));
                    }
                }
            }
            return ;
        }
        let mut i: usize = 0;
        proof {
            assert(w0.skip(0) =~= w0);
            assert(word@.take(0) + upper_all(w0.skip(0)) =~= upper_all(w0));
        }
        while i < word.len()
            invariant
                !first_char_only,
                w0 == old(word)@,
                word@.len() == w0.len(),
                i <= word@.len(),
                word@.skip(i as int) == w0.skip(i as int),
                upper_all(w0) == word@.take(i as int) + upper_all(w0.skip(i as int)),
            decreases word@.len() - i,
        {
            let ghost before = word@;
            let g = Transform::upper_group_at(word, i);
            if g == 0 {
                proof {
                    assert(w0.skip(i as int) == before.skip(i as int));
                    assert(upper_all(w0) =~= word@.take(i as int) + word@.skip(i as int));
                    assert(word@.take(i as int) + word@.skip(i as int) =~= word@);
                }
                return ;
            }
            proof {
                assert(before.skip(i as int) == w0.skip(i as int));
                assert forall|k: int| 0 <= k < before.len() - (i + g) implies #[trigger] before.skip(
                    i + g,
                )[k] == w0.skip(i + g)[k] by {
                    assert(before.skip(i as int)[k + g] == w0.skip(i as int)[k + g]);
                }
                assert(before.skip(i + g) =~= w0.skip(i + g));
                assert(forall|k: int| 0 <= k < i ==> word@[k] == before[k]);
                assert(word@.take(i + g) =~= word@.take(i as int) + word@.subrange(
                    i as int,
                    i + g,
                ));
                assert(word@.take(i as int) =~= before.take(i as int));
                assert(upper_all(w0) =~= word@.take(i + g) + upper_all(w0.skip(i + g)));
                assert(word@.skip(i + g) =~= w0.skip(i + g));
            }
            i = i + g;
        }
        proof {
            assert(w0.skip(i as int).len() == 0);
            assert(upper_all(w0.skip(i as int)) =~= w0.skip(i as int));
            assert(upper_all(w0) =~= word@.take(i as int));
            assert(word@.take(i as int) =~= word@);
        }
    }

    /// Writes the transform of `src` — prefix, transformed word, suffix —
    /// into the front of `dst` and returns the number of bytes written.
    pub fn transform(&self, src: &Vec<u8>, dst: &mut Vec<u8>) -> (r: usize)
        requires
            match self.transform {
                WordTransformType::OmitFirst(n) => n as int <= src@.len(),
                WordTransformType::OmitLast(n) => n as int <= src@.len(),
                _ => true,
            },
            old(dst)@.len() >= spec_transform(self.prefix@, self.transform, self.suffix@, src@).len(),
        ensures
            r == spec_transform(self.prefix@, self.transform, self.suffix@, src@).len(),
            final(dst)@.len() == old(dst)@.len(),
            final(dst)@.subrange(0, r as int) == spec_transform(
                self.prefix@,
                self.transform,
                self.suffix@,
                src@,
            ),
            final(dst)@.skip(r as int) == old(dst)@.skip(r as int),
    {
        let ghost out = spec_transform(self.prefix@, self.transform, self.suffix@, src@);
        let mut mid: Vec<u8>;
        match self.transform {
            WordTransformType::Identity => {
                mid = sub_vec(src, 0, src.len());
                proof {
                    assert(mid@ =~= src@);
                }
            },
            WordTransformType::UppercaseFirst => {
                mid = sub_vec(src, 0, src.len());
                proof {
                    assert(mid@ =~= src@);
                }
                Transform::to_uppercase(&mut mid, true);
            },
            WordTransformType::UppercaseAll => {
                mid = sub_vec(src, 0, src.len());
                proof {
                    assert(mid@ =~= src@);
                }
                Transform::to_uppercase(&mut mid, false);
            },
            WordTransformType::OmitFirst(n) => {
                mid = sub_vec(src, n as usize, src.len());
                proof {
                    assert(mid@ =~= src@.skip(n as int));
                }
            },
            WordTransformType::OmitLast(n) => {
                mid = sub_vec(src, 0, src.len() - (n as usize));
                proof {
                    assert(mid@ =~= src@.take(src@.len() - n as int));
                }
            },
        }
        proof {
            assert(mid@ == transformed_word(self.transform, src@));
            assert(out.len() == self.prefix@.len() + mid@.len() + self.suffix@.len());
        }
        let p = self.prefix.len();
        let m = mid.len();
        proof {
            vstd::std_specs::vec::axiom_spec_len(dst);
        }
        Transform::copy(&self.prefix, dst, 0);
        Transform::copy(&mid, dst, p);
        Transform::copy(&self.suffix, dst, p + m);
        let r = p + m + self.suffix.len();
        proof {
            assert(dst@.subrange(0, r as int) =~= out);
            assert(dst@.skip(r as int) =~= old(dst)@.skip(r as int));
        }
        r
    }
}

} // verus!
