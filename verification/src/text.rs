//! Rendering of key sequences as text: the elements in order, separated by
//! a comma and a space, inside a pair of braces.

use vstd::prelude::*;
use vstd::string::StringExecFns;
use crate::table::Keys;

verus! {

/// A key that has a textual form.
pub trait PhfText {
    /// The characters that stand for the key.
    spec fn text(&self) -> Seq<char>;

    /// Appends the key's text to `out`.
    fn write_text(&self, out: &mut String)
        ensures
            final(out)@ == old(out)@ + self.text(),
    ;
}

impl<'a> PhfText for &'a str {
    open spec fn text(&self) -> Seq<char> {
        self@
    }

    fn write_text(&self, out: &mut String) {
        out.append(*self);
    }
}

impl PhfText for String {
    open spec fn text(&self) -> Seq<char> {
        self@
    }

    fn write_text(&self, out: &mut String) {
        out.append(self.as_str());
    }
}

/// The texts of `keys`, in order.
pub open spec fn texts_of<T: PhfText>(keys: Seq<T>) -> Seq<Seq<char>> {
    Seq::new(keys.len(), |i: int| keys[i].text())
}

/// The parts in order, with a comma and a space between neighbours.
pub open spec fn listed(parts: Seq<Seq<char>>) -> Seq<char>
    decreases parts.len(),
{
    if parts.len() == 0 {
        Seq::empty()
    } else if parts.len() == 1 {
        parts[0]
    } else {
        listed(parts.drop_last()) + ", "@ + parts.last()
    }
}

/// The listed parts inside a pair of braces.
pub open spec fn braced(parts: Seq<Seq<char>>) -> Seq<char> {
    "{"@ + listed(parts) + "}"@
}

/// The character sequences of `parts`, in order.
pub open spec fn views_of(parts: Seq<String>) -> Seq<Seq<char>> {
    Seq::new(parts.len(), |i: int| parts[i]@)
}

/// Renders texts that were made elsewhere: the parts in order, separated by
/// a comma and a space, inside a pair of braces.
pub fn render_texts(parts: &Vec<String>) -> (s: String)
    ensures
        s@ == braced(views_of(parts@)),
{
    let ghost texts = views_of(parts@);
    let mut out = String::from_str("{");
    let mut i: usize = 0;
    while i < parts.len()
        invariant
            i <= parts@.len(),
            texts == views_of(parts@),
            out@ == "{"@ + listed(texts.take(i as int)),
        decreases parts@.len() - i,
    {
        proof {
            assert(texts.take(i + 1).drop_last() =~= texts.take(i as int));
            assert(texts.take(i + 1).last() == parts@[i as int]@);
            assert(listed(texts.take(0)) =~= Seq::<char>::empty());
        }
        if i > 0 {
            out.append(", ");
        }
        out.append(parts[i].as_str());
        proof {
            if i == 0 {
                assert(out@ =~= "{"@ + parts@[0]@);
            } else {
                assert(out@ =~= "{"@ + (listed(texts.take(i as int)) + ", "@ + parts@[i as int]@));
            }
        }
        i += 1;
    }
    proof {
        assert(texts.take(i as int) =~= texts);
    }
    out.append("}");
    out
}

/// Renders the keys that `keys` has yet to hand out, front to back.
pub fn render_keys<'a, T: PhfText>(keys: Keys<'a, T>) -> (s: String)
    requires
        keys.wf(),
    ensures
        s@ == braced(texts_of(keys.remaining())),
{
    let ghost parts = texts_of(keys.remaining());
    let ghost all = keys.remaining();
    let mut cursor = keys;
    let mut out = String::from_str("{");
    let mut first = true;
    loop
        invariant
            cursor.wf(),
            all == keys.remaining(),
            parts == texts_of(all),
            cursor.remaining().len() <= all.len(),
            cursor.remaining() == all.skip(all.len() - cursor.remaining().len()),
            first == (cursor.remaining().len() == all.len()),
            out@ == "{"@ + listed(parts.take(all.len() - cursor.remaining().len())),
        decreases cursor.remaining().len(),
    {
        let ghost done = all.len() - cursor.remaining().len();
        match cursor.next() {
            None => {
                proof {
                    assert(parts.take(done) =~= parts);
                }
                out.append("}");
                return out;
            },
            Some(entry) => {
                proof {
                    assert(*entry == all[done]);
                    assert(cursor.remaining() =~= all.skip(done + 1));
                    assert(parts.take(done + 1).drop_last() =~= parts.take(done));
                    assert(parts.take(done + 1).last() == entry.text());
                    assert(listed(parts.take(0)) =~= Seq::<char>::empty());
                }
                if !first {
                    out.append(", ");
                }
                entry.write_text(&mut out);
                first = false;
                proof {
                    if done == 0 {
                        assert(out@ =~= "{"@ + entry.text());
                    } else {
                        assert(out@ =~= "{"@ + (listed(parts.take(done)) + ", "@ + entry.text()));
                    }
                }
            },
        }
    }
}

} // verus!
