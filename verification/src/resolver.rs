//! Dependency resolver: reads the raw, pre-splice document line by line,
//! recognises import-style lines, and computes the base path each named
//! module resolves to. A dotted name resolves against the working root
//! with the dots turned into separators; a plain name resolves against the
//! document's own directory.

use vstd::prelude::*;
use crate::bytes::{bytes_eq, extend_from, subrange_vec};

verus! {

/// The line separator.
pub const NEWLINE: u8 = 10;

/// The carriage return stripped from a line's end.
pub const CARRIAGE: u8 = 13;

/// The path separator.
pub const SLASH: u8 = 47;

/// The dot of a dotted module name.
pub const DOT: u8 = 46;

/// Whether a byte separates the words of a line. Word separation is read
/// at the byte level over the ASCII whitespace bytes: a line led by a
/// multi-byte Unicode space is not an import line, as no valid source line
/// of the host language opens with one.
pub open spec fn is_ws(b: u8) -> bool {
    b == 32 || b == 9 || b == 10 || b == 11 || b == 12 || b == 13
}

/// The index of the first occurrence of `b` in `text` at or after `i`, or
/// the text's length when there is none.
pub open spec fn find_byte_from(text: Seq<u8>, b: u8, i: int) -> int
    decreases text.len() - i,
{
    if i < 0 || i >= text.len() {
        text.len() as int
    } else if text[i] == b {
        i
    } else {
        find_byte_from(text, b, i + 1)
    }
}

/// The index of the first word byte at or after `i`, or the line's length
/// when only separators remain.
pub open spec fn tok_start(line: Seq<u8>, i: int) -> int
    decreases line.len() - i,
{
    if i < 0 || i >= line.len() {
        line.len() as int
    } else if is_ws(line[i]) {
        tok_start(line, i + 1)
    } else {
        i
    }
}

/// The index just past the word starting at `i`: the first separator at or
/// after `i`, or the line's length.
pub open spec fn tok_end(line: Seq<u8>, i: int) -> int
    decreases line.len() - i,
{
    if i < 0 || i >= line.len() {
        line.len() as int
    } else if !is_ws(line[i]) {
        tok_end(line, i + 1)
    } else {
        i
    }
}

/// The first word of a line.
pub open spec fn first_tok(line: Seq<u8>) -> Seq<u8> {
    line.subrange(tok_start(line, 0), tok_end(line, tok_start(line, 0)))
}

/// The second word of a line.
pub open spec fn second_tok(line: Seq<u8>) -> Seq<u8> {
    let e0 = tok_end(line, tok_start(line, 0));
    line.subrange(tok_start(line, e0), tok_end(line, tok_start(line, e0)))
}

/// Whether the line has a second word at all.
pub open spec fn has_second_tok(line: Seq<u8>) -> bool {
    tok_start(line, tok_end(line, tok_start(line, 0))) < line.len()
}

/// The bytes of the `import` keyword.
pub open spec fn import_kw() -> Seq<u8> {
    seq![105u8, 109u8, 112u8, 111u8, 114u8, 116u8]
}

/// The bytes of the `from` keyword.
pub open spec fn from_kw() -> Seq<u8> {
    seq![102u8, 114u8, 111u8, 109u8]
}

/// A dependency line: its first word is an import-style keyword and a
/// module name follows it.
pub open spec fn is_import_line(line: Seq<u8>) -> bool {
    &&& (first_tok(line) == import_kw() || first_tok(line) == from_kw())
    &&& has_second_tok(line)
}

/// Whether `b` occurs in `s`.
pub open spec fn contains_byte(s: Seq<u8>, b: u8) -> bool {
    exists|i: int| 0 <= i < s.len() && s[i] == b
}

/// The name with every dot turned into a path separator.
pub open spec fn dots_to_slashes(s: Seq<u8>) -> Seq<u8> {
    s.map_values(|b: u8| if b == DOT { SLASH } else { b })
}

/// The index of the last path separator of `p`, or a negative value when
/// there is none.
pub open spec fn last_slash(p: Seq<u8>) -> int
    decreases p.len(),
{
    if p.len() == 0 {
        -1
    } else if p[p.len() - 1] == SLASH {
        p.len() - 1
    } else {
        last_slash(p.drop_last())
    }
}

/// The directory part of a path: everything before its last separator,
/// and the root directory itself when the only separator opens the path.
/// Empty when the path has no separator at all, so that a document at the
/// working root resolves plain imports against that root.
pub open spec fn parent_dir(p: Seq<u8>) -> Seq<u8> {
    if last_slash(p) >= 1 {
        p.subrange(0, last_slash(p))
    } else if last_slash(p) == 0 {
        seq![SLASH]
    } else {
        Seq::empty()
    }
}

/// The base path a module name resolves to. A dotted name is a path from
/// the working root; a plain name lives beside the importing document.
pub open spec fn resolve_import(name: Seq<u8>, doc_path: Seq<u8>) -> Seq<u8> {
    if contains_byte(name, DOT) {
        dots_to_slashes(name)
    } else {
        let d = parent_dir(doc_path);
        if d.len() > 0 {
            d + seq![SLASH] + name
        } else {
            name
        }
    }
}

/// The base path a dependency line resolves to, when it is one.
pub open spec fn line_import(line: Seq<u8>, doc_path: Seq<u8>) -> Option<Seq<u8>> {
    if is_import_line(line) {
        Option::Some(resolve_import(second_tok(line), doc_path))
    } else {
        Option::None
    }
}

/// A line's end: the first line separator at or after `pos` (clamped so
/// the position never moves backward), or the text's end.
pub open spec fn line_end(text: Seq<u8>, pos: int) -> int {
    let k = find_byte_from(text, NEWLINE, pos);
    if k < pos {
        pos
    } else {
        k
    }
}

/// A line with its trailing carriage return stripped.
pub open spec fn strip_cr(line: Seq<u8>) -> Seq<u8> {
    if line.len() > 0 && line[line.len() - 1] == CARRIAGE {
        line.drop_last()
    } else {
        line
    }
}

/// The base paths of every dependency line of the text from `pos` on, in
/// document order.
pub open spec fn imports_from(text: Seq<u8>, doc_path: Seq<u8>, pos: int) -> Seq<Seq<u8>>
    decreases text.len() - pos,
{
    if pos < 0 || pos >= text.len() {
        Seq::empty()
    } else {
        let k = line_end(text, pos);
        let line = strip_cr(text.subrange(pos, k));
        let next = if k + 1 <= text.len() {
            k + 1
        } else {
            text.len() as int
        };
        let rest = imports_from(text, doc_path, next);
        match line_import(line, doc_path) {
            Option::Some(p) => seq![p] + rest,
            Option::None => rest,
        }
    }
}

/// The base paths of every dependency line of the text, in document order.
pub open spec fn imports_of(text: Seq<u8>, doc_path: Seq<u8>) -> Seq<Seq<u8>> {
    imports_from(text, doc_path, 0)
}

/// A sequence of byte vectors seen as byte sequences.
pub open spec fn vecs_view(s: Seq<Vec<u8>>) -> Seq<Seq<u8>> {
    s.map_values(|v: Vec<u8>| v@)
}

/// The index of the first occurrence of `b` in `text` at or after `from`,
/// or the text's length.
pub fn find_byte(text: &Vec<u8>, b: u8, from: usize) -> (r: usize)
    requires
        from <= text@.len(),
    ensures
        r as int == find_byte_from(text@, b, from as int),
        from <= r <= text@.len(),
{
    let mut j = from;
    while j < text.len()
        invariant
            from <= j <= text@.len(),
            find_byte_from(text@, b, from as int) == find_byte_from(text@, b, j as int),
        decreases text@.len() - j,
    {
        if text[j] == b {
            return j;
        }
        j += 1;
    }
    j
}

/// The index of the first word byte of `line` at or after `from`.
fn tok_start_exec(line: &Vec<u8>, from: usize) -> (r: usize)
    requires
        from <= line@.len(),
    ensures
        r as int == tok_start(line@, from as int),
        from <= r <= line@.len(),
{
    let mut j = from;
    while j < line.len()
        invariant
            from <= j <= line@.len(),
            tok_start(line@, from as int) == tok_start(line@, j as int),
        decreases line@.len() - j,
    {
        let c = line[j];
        if !(c == 32 || c == 9 || c == 10 || c == 11 || c == 12 || c == 13) {
            return j;
        }
        j += 1;
    }
    j
}

/// The index just past the word of `line` starting at `from`.
fn tok_end_exec(line: &Vec<u8>, from: usize) -> (r: usize)
    requires
        from <= line@.len(),
    ensures
        r as int == tok_end(line@, from as int),
        from <= r <= line@.len(),
{
    let mut j = from;
    while j < line.len()
        invariant
            from <= j <= line@.len(),
            tok_end(line@, from as int) == tok_end(line@, j as int),
        decreases line@.len() - j,
    {
        let c = line[j];
        if c == 32 || c == 9 || c == 10 || c == 11 || c == 12 || c == 13 {
            return j;
        }
        j += 1;
    }
    j
}

/// Whether `b` occurs in `s`.
pub fn contains_byte_exec(s: &Vec<u8>, b: u8) -> (r: bool)
    ensures
        r == contains_byte(s@, b),
{
    let mut j: usize = 0;
    while j < s.len()
        invariant
            j <= s@.len(),
            forall|k: int| 0 <= k < j ==> s@[k] != b,
        decreases s@.len() - j,
    {
        if s[j] == b {
            return true;
        }
        j += 1;
    }
    false
}

/// The name with every dot turned into a path separator.
fn dots_to_slashes_exec(name: &Vec<u8>) -> (r: Vec<u8>)
    ensures
        r@ == dots_to_slashes(name@),
{
    let mut r: Vec<u8> = Vec::new();
    let mut j: usize = 0;
    while j < name.len()
        invariant
            j <= name@.len(),
            r@.len() == j,
            forall|k: int| 0 <= k < j ==> r@[k] == (if name@[k] == DOT { SLASH } else { name@[k] }),
        decreases name@.len() - j,
    {
        let c = name[j];
        if c == DOT {
            r.push(SLASH);
        } else {
            r.push(c);
        }
        j += 1;
    }
    proof {
        assert(r@ =~= dots_to_slashes(name@));
    }
    r
}

/// The directory part of a path.
pub fn parent_dir_exec(p: &Vec<u8>) -> (r: Vec<u8>)
    ensures
        r@ == parent_dir(p@),
{
    let mut i: usize = p.len();
    proof {
        assert(p@.take(p@.len() as int) =~= p@);
    }
    while i > 0
        invariant
            i <= p@.len(),
            last_slash(p@) == last_slash(p@.take(i as int)),
            forall|k: int| i <= k < p@.len() ==> p@[k] != SLASH,
        decreases i,
    {
        if p[i - 1] == SLASH {
            proof {
                assert(p@.take(i as int).len() == i);
                assert(p@.take(i as int)[i - 1] == p@[i - 1]);
                assert(last_slash(p@.take(i as int)) == i - 1);
            }
            if i - 1 >= 1 {
                return subrange_vec(p, 0, i - 1);
            } else {
                let mut root: Vec<u8> = Vec::new();
                root.push(SLASH);
                proof {
                    assert(root@ =~= seq![SLASH]);
                }
                return root;
            }
        }
        proof {
            assert(p@.take(i as int).drop_last() =~= p@.take(i as int - 1));
            assert(p@.take(i as int)[i - 1] == p@[i - 1]);
        }
        i -= 1;
    }
    proof {
        assert(p@.take(0) =~= Seq::<u8>::empty());
        assert(last_slash(p@) == -1);
        assert(parent_dir(p@) =~= Seq::<u8>::empty());
    }
    Vec::new()
}

/// The `import` keyword as bytes.
fn import_kw_bytes() -> (r: Vec<u8>)
    ensures
        r@ == import_kw(),
{
    let mut r: Vec<u8> = Vec::new();
    r.push(105);
    r.push(109);
    r.push(112);
    r.push(111);
    r.push(114);
    r.push(116);
    proof {
        assert(r@ =~= import_kw());
    }
    r
}

/// The `from` keyword as bytes.
fn from_kw_bytes() -> (r: Vec<u8>)
    ensures
        r@ == from_kw(),
{
    let mut r: Vec<u8> = Vec::new();
    r.push(102);
    r.push(114);
    r.push(111);
    r.push(109);
    proof {
        assert(r@ =~= from_kw());
    }
    r
}

/// The base path a module name resolves to.
pub fn resolve_import_exec(name: &Vec<u8>, doc_path: &Vec<u8>) -> (r: Vec<u8>)
    ensures
        r@ == resolve_import(name@, doc_path@),
{
    if contains_byte_exec(name, DOT) {
        dots_to_slashes_exec(name)
    } else {
        let mut d = parent_dir_exec(doc_path);
        if d.len() > 0 {
            d.push(SLASH);
            extend_from(&mut d, name);
            proof {
                assert(d@ =~= parent_dir(doc_path@) + seq![SLASH] + name@);
            }
            d
        } else {
            subrange_vec(name, 0, name.len())
        }
    }
}

/// The base path a line resolves to, when it is a dependency line.
pub fn parse_import_line(line: &Vec<u8>, doc_path: &Vec<u8>) -> (r: Option<Vec<u8>>)
    ensures
        match r {
            Option::Some(p) => line_import(line@, doc_path@) == Option::Some(p@),
            Option::None => line_import(line@, doc_path@) is None,
        },
{
    let s0 = tok_start_exec(line, 0);
    let e0 = tok_end_exec(line, s0);
    let tok0 = subrange_vec(line, s0, e0);
    let ik = import_kw_bytes();
    let fk = from_kw_bytes();
    if !(bytes_eq(&tok0, &ik) || bytes_eq(&tok0, &fk)) {
        return Option::None;
    }
    let s1 = tok_start_exec(line, e0);
    if s1 >= line.len() {
        return Option::None;
    }
    let e1 = tok_end_exec(line, s1);
    let name = subrange_vec(line, s1, e1);
    Option::Some(resolve_import_exec(&name, doc_path))
}

/// The base paths of every dependency line of the raw document, in
/// document order: one per line whose first word is an import-style
/// keyword and which names a module.
pub fn collect_imports(text: &Vec<u8>, doc_path: &Vec<u8>) -> (r: Vec<Vec<u8>>)
    ensures
        vecs_view(r@) == imports_of(text@, doc_path@),
{
    let mut r: Vec<Vec<u8>> = Vec::new();
    let dlen = text.len();
    let mut pos: usize = 0;
    while pos < dlen
        invariant
            pos <= dlen,
            dlen == text@.len(),
            vecs_view(r@) + imports_from(text@, doc_path@, pos as int) == imports_of(
                text@,
                doc_path@,
            ),
        decreases dlen - pos,
    {
        let k = find_byte(text, NEWLINE, pos);
        let mut line = subrange_vec(text, pos, k);
        if line.len() > 0 && line[line.len() - 1] == CARRIAGE {
            line.pop();
        }
        proof {
            assert(line_end(text@, pos as int) == k as int);
            assert(line@ == strip_cr(text@.subrange(pos as int, k as int)));
        }
        let ghost old_r = r@;
        let next = if k >= dlen {
            dlen
        } else {
            k + 1
        };
        let ghost rest = imports_from(text@, doc_path@, next as int);
        match parse_import_line(&line, doc_path) {
            Option::Some(p) => {
                let ghost pv = p@;
                r.push(p);
                proof {
                    assert(imports_from(text@, doc_path@, pos as int) == seq![pv] + rest);
                    assert(vecs_view(r@) =~= vecs_view(old_r).push(pv));
                    assert(vecs_view(r@) + rest =~= vecs_view(old_r) + (seq![pv] + rest));
                }
            },
            Option::None => {
                proof {
                    assert(imports_from(text@, doc_path@, pos as int) == rest);
                }
            },
        }
        pos = next;
    }
    proof {
        assert(vecs_view(r@) =~= vecs_view(r@) + imports_from(text@, doc_path@, pos as int));
    }
    r
}

/// The source extension, dot included.
pub open spec fn py_ext() -> Seq<u8> {
    seq![DOT, 112u8, 121u8]
}

/// Whether a path names a source file: it ends with the source extension
/// and a file name stands before it.
pub open spec fn has_py_ext(p: Seq<u8>) -> bool {
    &&& p.len() >= 4
    &&& p.subrange(p.len() - 3, p.len() as int) == py_ext()
    &&& p[p.len() - 4] != SLASH
}

/// A path with a trailing source extension stripped, for module keys.
pub open spec fn strip_py_ext(p: Seq<u8>) -> Seq<u8> {
    if p.len() >= 3 && p.subrange(p.len() - 3, p.len() as int) == py_ext() {
        p.subrange(0, p.len() - 3)
    } else {
        p
    }
}

/// The source-extension paths of a directory listing, in listing order and
/// nothing else.
pub open spec fn filter_py(paths: Seq<Seq<u8>>) -> Seq<Seq<u8>>
    decreases paths.len(),
{
    if paths.len() == 0 {
        Seq::empty()
    } else if has_py_ext(paths[0]) {
        seq![paths[0]] + filter_py(paths.drop_first())
    } else {
        filter_py(paths.drop_first())
    }
}

/// Directory expansion keeps exactly the source-extension files: a path is
/// kept if and only if it was listed and carries the source extension.
pub proof fn lemma_filter_py_exact(paths: Seq<Seq<u8>>)
    ensures
        forall|p: Seq<u8>|
            #![trigger filter_py(paths).contains(p)]
            #![trigger paths.contains(p)]
            filter_py(paths).contains(p) <==> (paths.contains(p) && has_py_ext(p)),
    decreases paths.len(),
{
    if paths.len() == 0 {
    } else {
        let tail = paths.drop_first();
        lemma_filter_py_exact(tail);
        let rest = filter_py(tail);
        assert forall|p: Seq<u8>|
            #![trigger filter_py(paths).contains(p)]
            #![trigger paths.contains(p)]
            filter_py(paths).contains(p) <==> (paths.contains(p) && has_py_ext(p)) by {
            let f = filter_py(paths);
            if f.contains(p) {
                let j = choose|j: int| 0 <= j < f.len() && f[j] == p;
                if has_py_ext(paths[0]) && j == 0 {
                    assert(paths[0] == p);
                    assert(paths.contains(p)) by {
                        assert(0 <= 0 < paths.len() && paths[0] == p);
                    }
                } else {
                    let jr = if has_py_ext(paths[0]) {
                        j - 1
                    } else {
                        j
                    };
                    assert(rest[jr] == p);
                    assert(rest.contains(p)) by {
                        assert(0 <= jr < rest.len() && rest[jr] == p);
                    }
                    assert(filter_py(tail).contains(p));
                    assert(tail.contains(p) && has_py_ext(p));
                    let i = choose|i: int| 0 <= i < tail.len() && tail[i] == p;
                    assert(paths[i + 1] == p);
                    assert(paths.contains(p)) by {
                        assert(0 <= i + 1 < paths.len() && paths[i + 1] == p);
                    }
                }
            }
            if paths.contains(p) && has_py_ext(p) {
                let i = choose|i: int| 0 <= i < paths.len() && paths[i] == p;
                if i == 0 {
                    assert(has_py_ext(paths[0]));
                    assert(f[0] == p);
                    assert(f.contains(p)) by {
                        assert(0 <= 0 < f.len() && f[0] == p);
                    }
                } else {
                    assert(tail[i - 1] == p);
                    assert(tail.contains(p)) by {
                        assert(0 <= i - 1 < tail.len() && tail[i - 1] == p);
                    }
                    assert(filter_py(tail).contains(p));
                    let j = choose|j: int| 0 <= j < rest.len() && rest[j] == p;
                    let jf = if has_py_ext(paths[0]) {
                        j + 1
                    } else {
                        j
                    };
                    assert(f[jf] == p);
                    assert(f.contains(p)) by {
                        assert(0 <= jf < f.len() && f[jf] == p);
                    }
                }
            }
        }
    }
}

/// Whether a path names a source file.
pub fn has_py_ext_exec(p: &Vec<u8>) -> (r: bool)
    ensures
        r == has_py_ext(p@),
{
    if p.len() < 4 {
        return false;
    }
    let n = p.len();
    if p[n - 4] == SLASH {
        return false;
    }
    let r = p[n - 3] == DOT && p[n - 2] == 112 && p[n - 1] == 121;
    proof {
        if r {
            assert(p@.subrange(p@.len() - 3, p@.len() as int) =~= py_ext());
        } else {
            assert(p@.subrange(p@.len() - 3, p@.len() as int)[0] == p@[p@.len() - 3]);
            assert(p@.subrange(p@.len() - 3, p@.len() as int)[1] == p@[p@.len() - 2]);
            assert(p@.subrange(p@.len() - 3, p@.len() as int)[2] == p@[p@.len() - 1]);
        }
    }
    r
}

/// The source-extension paths of a directory listing, in listing order.
pub fn filter_source_files(entries: &Vec<Vec<u8>>) -> (r: Vec<Vec<u8>>)
    ensures
        vecs_view(r@) == filter_py(vecs_view(entries@)),
{
    let mut r: Vec<Vec<u8>> = Vec::new();
    proof {
        assert(vecs_view(r@) =~= Seq::<Seq<u8>>::empty());
        assert(vecs_view(entries@).skip(0) =~= vecs_view(entries@));
        assert(vecs_view(r@) + filter_py(vecs_view(entries@)) =~= filter_py(vecs_view(entries@)));
    }
    let mut i: usize = 0;
    while i < entries.len()
        invariant
            i <= entries@.len(),
            vecs_view(r@) + filter_py(vecs_view(entries@).skip(i as int)) == filter_py(
                vecs_view(entries@),
            ),
        decreases entries@.len() - i,
    {
        let ghost old_r = r@;
        let ghost ev = vecs_view(entries@);
        proof {
            assert(ev.skip(i as int)[0] == ev[i as int]);
            assert(ev.skip(i as int).drop_first() =~= ev.skip(i as int + 1));
        }
        let e = &entries[i];
        if has_py_ext_exec(e) {
            let copy = subrange_vec(e, 0, e.len());
            proof {
                assert(copy@ =~= e@);
            }
            r.push(copy);
            proof {
                assert(vecs_view(r@) =~= vecs_view(old_r).push(ev[i as int]));
                assert(vecs_view(r@) + filter_py(ev.skip(i as int + 1)) =~= vecs_view(old_r)
                    + filter_py(ev.skip(i as int)));
            }
        }
        i += 1;
    }
    proof {
        assert(vecs_view(entries@).skip(entries@.len() as int) =~= Seq::<Seq<u8>>::empty());
        assert(vecs_view(r@) =~= vecs_view(r@) + filter_py(
            vecs_view(entries@).skip(entries@.len() as int),
        ));
    }
    r
}

/// A base path with the source extension appended: the candidate file of a
/// plain module import.
pub fn with_py_extension(base: &Vec<u8>) -> (r: Vec<u8>)
    ensures
        r@ == base@ + py_ext(),
{
    let mut r = subrange_vec(base, 0, base.len());
    r.push(DOT);
    r.push(112);
    r.push(121);
    proof {
        assert(r@ =~= base@ + py_ext());
    }
    r
}

/// A path with a trailing source extension stripped.
pub fn strip_py_extension(p: &Vec<u8>) -> (r: Vec<u8>)
    ensures
        r@ == strip_py_ext(p@),
{
    let n = p.len();
    if n >= 3 && p[n - 3] == DOT && p[n - 2] == 112 && p[n - 1] == 121 {
        proof {
            assert(p@.subrange(p@.len() - 3, p@.len() as int) =~= py_ext());
        }
        subrange_vec(p, 0, n - 3)
    } else {
        proof {
            if n >= 3 && p@.subrange(p@.len() - 3, p@.len() as int) == py_ext() {
                assert(p@[p@.len() - 3] == py_ext()[0]);
                assert(p@[p@.len() - 2] == py_ext()[1]);
                assert(p@[p@.len() - 1] == py_ext()[2]);
            }
        }
        subrange_vec(p, 0, n)
    }
}

/// The output root that a first, non-overwriting pass writes under.
pub open spec fn out_root() -> Seq<u8> {
    seq![111u8, 117u8, 116u8, 112u8, 117u8, 116u8]
}

/// Where the spliced document is written: the same path when the pass
/// overwrites in place, and the output root mirroring the source path
/// otherwise.
pub open spec fn output_path_model(path: Seq<u8>, overwrite: bool) -> Seq<u8> {
    if overwrite {
        path
    } else {
        out_root() + seq![SLASH] + path
    }
}

/// Where the spliced document is written.
pub fn output_path(path: &Vec<u8>, overwrite: bool) -> (r: Vec<u8>)
    ensures
        r@ == output_path_model(path@, overwrite),
{
    if overwrite {
        let r = subrange_vec(path, 0, path.len());
        proof {
            assert(r@ =~= path@);
        }
        r
    } else {
        let mut r: Vec<u8> = Vec::new();
        r.push(111);
        r.push(117);
        r.push(116);
        r.push(112);
        r.push(117);
        r.push(116);
        r.push(SLASH);
        extend_from(&mut r, path);
        proof {
            assert(r@ =~= out_root() + seq![SLASH] + path@);
        }
        r
    }
}

} // verus!
