//! The conventional file-extension check for replay paths.
//!
//! Replays are stored with the `.osr` extension.  The check reads the
//! path's final component (after the last slash) and its extension (after
//! the last dot, provided a dot follows the first byte of a non-hidden
//! name): no extension is `NotAFile`, any extension other than `osr` is
//! `NotAReplayFile`.  Opening and reading the file is the caller's
//! business; only the path text is judged here.

use vstd::prelude::*;

use crate::error::Error;

verus! {

/// The suffix of `b` after the last occurrence of `d`; all of `b` when
/// `d` does not occur.
pub open spec fn after_last(b: Seq<u8>, d: u8) -> Seq<u8>
    decreases b.len(),
{
    if b.len() == 0 {
        b
    } else if b.last() == d {
        Seq::empty()
    } else {
        after_last(b.drop_last(), d).push(b.last())
    }
}

/// The extension of a file name: the part after its last dot.  A name
/// without a dot, a name whose only dot leads a hidden file, and the
/// parent-directory name have none.
pub open spec fn spec_extension(name: Seq<u8>) -> Option<Seq<u8>> {
    if name == seq![46u8, 46u8] {
        None
    } else if after_last(name, 46).len() == name.len() {
        None
    } else if name.len() > 0 && name[0] == 46 && after_last(name.skip(1), 46).len() == name.len()
        - 1 {
        None
    } else {
        Some(after_last(name, 46))
    }
}

/// What the path check decides: the extension of the final path
/// component must be exactly `osr`.
pub open spec fn spec_ensure_replay_file(path: Seq<u8>) -> Result<(), Error> {
    match spec_extension(after_last(path, 47)) {
        None => Err(Error::NotAFile),
        Some(ext) => if ext == seq![111u8, 115u8, 114u8] {
            Ok(())
        } else {
            Err(Error::NotAReplayFile)
        },
    }
}

/// With no `d` beyond position `k` and a `d` just before it (or the
/// start), the suffix after the last `d` starts at `k`.
proof fn lemma_after_last_at(b: Seq<u8>, d: u8, k: int)
    requires
        0 <= k <= b.len(),
        forall|j: int| k <= j < b.len() ==> b[j] != d,
        k > 0 ==> b[k - 1] == d,
    ensures
        after_last(b, d) == b.skip(k),
    decreases b.len(),
{
    if b.len() == 0 {
        assert(b.skip(k) =~= b);
    } else if b.len() == k {
        assert(b.last() == d);
        assert(after_last(b, d) =~= b.skip(k));
    } else {
        assert(b.last() != d);
        lemma_after_last_at(b.drop_last(), d, k);
        assert(after_last(b.drop_last(), d).push(b.last()) =~= b.skip(k));
    }
}

/// Judge a path by its extension: `Ok` exactly for `.osr` paths, the
/// errors naming what is missing otherwise.
pub fn ensure_replay_file(path: &str) -> (r: Result<(), Error>)
    ensures
        r == spec_ensure_replay_file(vstd::utf8::encode_utf8(path@)),
{
    let bytes = path.as_bytes_vec();
    let ghost pb = bytes@;
    // The final component: everything after the last slash.
    let mut start: usize = bytes.len();
    while start > 0 && bytes[start - 1] != 47u8
        invariant
            start <= pb.len(),
            pb == bytes@,
            forall|j: int| start <= j < pb.len() ==> pb[j] != 47u8,
        decreases start,
    {
        start = start - 1;
    }
    proof {
        lemma_after_last_at(pb, 47u8, start as int);
    }
    let ghost name = pb.skip(start as int);
    // The extension: everything after the name's last dot.
    let mut dot: usize = bytes.len();
    while dot > start && bytes[dot - 1] != 46u8
        invariant
            start <= dot <= pb.len(),
            pb == bytes@,
            forall|j: int| dot <= j < pb.len() ==> pb[j] != 46u8,
        decreases dot,
    {
        dot = dot - 1;
    }
    proof {
        assert forall|j: int| dot - start <= j < name.len() implies name[j] != 46u8 by {
            assert(name[j] == pb[start + j]);
        }
        if dot > start {
            assert(name[dot - start - 1] == pb[dot - 1]);
        }
        lemma_after_last_at(name, 46u8, dot - start);
        assert(after_last(name, 46u8) == name.skip(dot - start));
    }
    let name_len = bytes.len() - start;
    if name_len == 2 && bytes[start] == 46u8 && bytes[start + 1] == 46u8 {
        proof {
            assert(name =~= seq![46u8, 46u8]);
        }
        return Err(Error::NotAFile);
    }
    proof {
        if name =~= seq![46u8, 46u8] {
        }
        if name == seq![46u8, 46u8] {
            assert(name.len() == 2 && name[0] == 46u8 && name[1] == 46u8);
            assert(pb[start as int] == 46u8 && pb[start + 1] == 46u8);
        }
    }
    if dot == start {
        // No dot at all in the final component.
        proof {
            assert(after_last(name, 46u8).len() == name.len());
        }
        return Err(Error::NotAFile);
    }
    assert(after_last(name, 46u8).len() < name.len()) by {
        assert(name[dot - start - 1] == 46u8);
    }
    if dot == start + 1 && bytes[start] == 46u8 {
        // A hidden file whose only dot is the leading one.
        let mut more: bool = false;
        let mut j: usize = start + 1;
        while j < bytes.len() && !more
            invariant
                start + 1 <= j <= pb.len(),
                pb == bytes@,
                !more ==> forall|i: int| start + 1 <= i < j ==> pb[i] != 46u8,
                more ==> exists|i: int| start + 1 <= i < pb.len() && pb[i] == 46u8,
            decreases pb.len() - j,
        {
            if bytes[j] == 46u8 {
                more = true;
            }
            j = j + 1;
        }
        if !more {
            proof {
                assert forall|i: int| 0 <= i < name.skip(1).len() implies name.skip(1)[i]
                    != 46u8 by {
                    assert(name.skip(1)[i] == pb[start + 1 + i]);
                }
                lemma_after_last_at(name.skip(1), 46u8, 0);
                assert(name.skip(1).skip(0) =~= name.skip(1));
                assert(after_last(name.skip(1), 46u8).len() == name.len() - 1);
            }
            return Err(Error::NotAFile);
        }
        proof {
            let i = choose|i: int| start + 1 <= i < pb.len() && pb[i] == 46u8;
            assert(name.skip(1)[i - start - 1] == 46u8);
            lemma_after_last_shorter(name.skip(1), 46u8, i - start - 1);
        }
    }
    proof {
        if name.len() > 0 && name[0] == 46 && after_last(name.skip(1), 46).len() == name.len()
            - 1 {
            let e = after_last(name.skip(1), 46u8);
            if !(dot == start + 1 && pb[start as int] == 46u8) {
                if dot > start + 1 {
                    assert(name.skip(1)[dot - start - 2] == pb[dot - 1]);
                    lemma_after_last_shorter(name.skip(1), 46u8, dot - start - 2);
                } else {
                    assert(pb[start as int] == pb[dot - 1]);
                }
            }
        }
    }
    // The extension is the name's tail after its last dot.
    let ghost ext = after_last(name, 46u8);
    assert(ext =~= pb.skip(dot as int));
    if bytes.len() - dot == 3 && bytes[dot] == 111u8 && bytes[dot + 1] == 115u8 && bytes[dot + 2]
        == 114u8 {
        proof {
            assert(ext =~= seq![111u8, 115u8, 114u8]);
        }
        Ok(())
    } else {
        proof {
            if ext == seq![111u8, 115u8, 114u8] {
                assert(ext.len() == 3);
                assert(pb[dot as int] == 111u8 && pb[dot + 1] == 115u8 && pb[dot + 2] == 114u8);
            }
        }
        Err(Error::NotAReplayFile)
    }
}

/// A dot inside the text leaves the suffix after the last dot shorter
/// than the text.
proof fn lemma_after_last_shorter(b: Seq<u8>, d: u8, at: int)
    requires
        0 <= at < b.len(),
        b[at] == d,
    ensures
        after_last(b, d).len() < b.len(),
    decreases b.len(),
{
    if b.last() == d {
    } else {
        assert(at < b.len() - 1);
        lemma_after_last_shorter(b.drop_last(), d, at);
    }
}

} // verus!
