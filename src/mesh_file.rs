use vstd::prelude::*;

verus! {

/// What a line of a mesh (`.obj`) or material (`.mtl`) file declares, going
/// by its first word.
#[derive(Clone, Copy, Debug, PartialEq, Eq, Structural)]
pub enum Directive {
    /// `v`: a vertex position.
    Position,
    /// `vt`: a texture coordinate.
    TexCoord,
    /// `vn`: a vertex normal.
    Normal,
    /// `f`: a triangle, as three face corners.
    Face,
    /// `usemtl`: the material for the faces that follow.
    UseMaterial,
    /// `newmtl`: the start of a material definition.
    NewMaterial,
    /// `Kd`: the diffuse color of the material being defined.
    DiffuseColor,
    /// Anything else, comments included: ignored.
    Other,
}

/// The directive that a line starting with `word` declares.
pub open spec fn directive_of(word: Seq<u8>) -> Directive {
    if word == seq![118u8] {
        Directive::Position
    } else if word == seq![118u8, 116u8] {
        Directive::TexCoord
    } else if word == seq![118u8, 110u8] {
        Directive::Normal
    } else if word == seq![102u8] {
        Directive::Face
    } else if word == seq![117u8, 115u8, 101u8, 109u8, 116u8, 108u8] {
        Directive::UseMaterial
    } else if word == seq![110u8, 101u8, 119u8, 109u8, 116u8, 108u8] {
        Directive::NewMaterial
    } else if word == seq![75u8, 100u8] {
        Directive::DiffuseColor
    } else {
        Directive::Other
    }
}

/// Whether `word` is exactly the bytes `expected`.
fn is_word(word: &[u8], expected: &[u8]) -> (r: bool)
    ensures
        r == (word@ == expected@),
{
    if word.len() != expected.len() {
        return false;
    }
    let mut i: usize = 0;
    while i < word.len()
        invariant
            i <= word@.len(),
            word@.len() == expected@.len(),
            word@.take(i as int) == expected@.take(i as int),
        decreases word@.len() - i,
    {
        if word[i] != expected[i] {
            assert(word@.take(i + 1)[i as int] != expected@.take(i + 1)[i as int]);
            assert(word@ != expected@);
            return false;
        }
        assert(word@.take(i + 1) =~= word@.take(i as int).push(word@[i as int]));
        assert(expected@.take(i + 1) =~= expected@.take(i as int).push(expected@[i as int]));
        i = i + 1;
    }
    assert(word@ =~= word@.take(i as int));
    assert(expected@ =~= expected@.take(i as int));
    true
}

/// The directive of a line whose first word is `word`.
pub fn directive(word: &[u8]) -> (r: Directive)
    ensures
        r == directive_of(word@),
{
    let v: [u8; 1] = [118];
    let vt: [u8; 2] = [118, 116];
    let vn: [u8; 2] = [118, 110];
    let f: [u8; 1] = [102];
    let usemtl: [u8; 6] = [117, 115, 101, 109, 116, 108];
    let newmtl: [u8; 6] = [110, 101, 119, 109, 116, 108];
    let kd: [u8; 2] = [75, 100];
    assert(v@ =~= seq![118u8]);
    assert(vt@ =~= seq![118u8, 116u8]);
    assert(vn@ =~= seq![118u8, 110u8]);
    assert(f@ =~= seq![102u8]);
    assert(usemtl@ =~= seq![117u8, 115u8, 101u8, 109u8, 116u8, 108u8]);
    assert(newmtl@ =~= seq![110u8, 101u8, 119u8, 109u8, 116u8, 108u8]);
    assert(kd@ =~= seq![75u8, 100u8]);
    if is_word(word, &v) {
        Directive::Position
    } else if is_word(word, &vt) {
        Directive::TexCoord
    } else if is_word(word, &vn) {
        Directive::Normal
    } else if is_word(word, &f) {
        Directive::Face
    } else if is_word(word, &usemtl) {
        Directive::UseMaterial
    } else if is_word(word, &newmtl) {
        Directive::NewMaterial
    } else if is_word(word, &kd) {
        Directive::DiffuseColor
    } else {
        Directive::Other
    }
}

/// One corner of a face in a mesh file, written `v`, `v/vt` or `v/vt/vn`
/// with 1-based indices, resolved to 0-based indices into the position,
/// texture-coordinate and normal lists read so far.
#[derive(Clone, Copy, Debug, PartialEq, Eq, Structural)]
pub struct FaceVertex {
    pub position: usize,
    /// `None` where the corner names no valid texture coordinate.
    pub uv: Option<usize>,
    /// `None` where the corner names no valid normal.
    pub normal: Option<usize>,
}

#[derive(Clone, Copy, Debug, PartialEq, Eq, Structural)]
pub enum FaceError {
    /// The position index is not a number.
    NotAnIndex,
    /// The position index names no position read so far.
    OutOfBounds(usize),
}

pub open spec fn is_digit(b: u8) -> bool {
    48 <= b <= 57
}

/// The value of a string of decimal digits.
pub open spec fn digits_value(s: Seq<u8>) -> nat
    decreases s.len(),
{
    if s.len() == 0 {
        0
    } else {
        digits_value(s.drop_last()) * 10 + (s.last() - 48) as nat
    }
}

/// The digits of an unsigned number: what follows an optional leading `+`.
pub open spec fn unsigned_digits(s: Seq<u8>) -> Seq<u8> {
    if s.len() > 0 && s[0] == 43 {
        s.drop_first()
    } else {
        s
    }
}

/// `s` read as an index: an optional `+`, then one or more decimal digits,
/// whose value fits in a `usize`.
pub open spec fn parse_index(s: Seq<u8>) -> Option<nat> {
    let d = unsigned_digits(s);
    if d.len() > 0 && (forall|i: int| 0 <= i < d.len() ==> is_digit(#[trigger] d[i]))
        && digits_value(d) <= usize::MAX {
        Some(digits_value(d))
    } else {
        None
    }
}

/// `s` cut at every `/`.
pub open spec fn slash_fields(s: Seq<u8>) -> Seq<Seq<u8>>
    decreases s.len(),
{
    if s.len() == 0 {
        seq![seq![]]
    } else {
        let f = slash_fields(s.drop_last());
        if s.last() == 47 {
            f.push(seq![])
        } else {
            f.update(f.len() - 1, f.last().push(s.last()))
        }
    }
}

/// The 0-based index that field `k` names in a list of `count` items, if the
/// field is there, is a number, and names an item of the list.
pub open spec fn optional_index(fields: Seq<Seq<u8>>, k: int, count: nat) -> Option<usize> {
    if k < fields.len() {
        match parse_index(fields[k]) {
            Some(n) => if 1 <= n <= count {
                Some((n - 1) as usize)
            } else {
                None
            },
            None => None,
        }
    } else {
        None
    }
}

/// What the face corner `token` resolves to, with `positions`, `uvs` and
/// `normals` items read so far.
pub open spec fn face_vertex_of(token: Seq<u8>, positions: nat, uvs: nat, normals: nat) -> Result<
    FaceVertex,
    FaceError,
> {
    let fields = slash_fields(token);
    match parse_index(fields[0]) {
        None => Err(FaceError::NotAnIndex),
        Some(n) => if 1 <= n <= positions {
            Ok(
                FaceVertex {
                    position: (n - 1) as usize,
                    uv: optional_index(fields, 1, uvs),
                    normal: optional_index(fields, 2, normals),
                },
            )
        } else {
            Err(FaceError::OutOfBounds(n as usize))
        },
    }
}

/// A number only grows as digits are added.
proof fn lemma_digits_grow(s: Seq<u8>, i: int)
    requires
        0 <= i <= s.len(),
    ensures
        digits_value(s.take(i)) <= digits_value(s),
    decreases s.len() - i,
{
    if i < s.len() {
        lemma_digits_grow(s, i + 1);
        assert(s.take(i + 1).drop_last() =~= s.take(i));
    } else {
        assert(s.take(i) =~= s);
    }
}

/// Reads `s[start..end]` as an index.
fn parse_index_exec(s: &[u8], start: usize, end: usize) -> (r: Option<usize>)
    requires
        start <= end <= s@.len(),
    ensures
        r == (match parse_index(s@.subrange(start as int, end as int)) {
            Some(n) => Some(n as usize),
            None => None,
        }),
{
    let ghost field = s@.subrange(start as int, end as int);
    let first: usize = if start < end && s[start] == 43 {
        start + 1
    } else {
        start
    };
    let ghost d = s@.subrange(first as int, end as int);
    assert(d =~= unsigned_digits(field));
    if first == end {
        return None;
    }
    let mut value: usize = 0;
    let mut i: usize = first;
    while i < end
        invariant
            first <= i <= end,
            end <= s@.len(),
            d == s@.subrange(first as int, end as int),
            field == s@.subrange(start as int, end as int),
            d == unsigned_digits(field),
            d.len() > 0,
            value == digits_value(d.take(i - first)),
            forall|j: int| 0 <= j < i - first ==> is_digit(#[trigger] d[j]),
        decreases end - i,
    {
        let b = s[i];
        if b < 48 || b > 57 {
            assert(!is_digit(d[i - first]));
            assert(parse_index(field) is None);
            return None;
        }
        let digit = (b - 48) as usize;
        assert(d.take(i - first + 1).drop_last() =~= d.take(i - first));
        if value > (usize::MAX - digit) / 10 {
            proof {
                let t = d.take(i - first + 1);
                assert(t.last() == b);
                assert(digits_value(t) == value * 10 + digit);
                lemma_digits_grow(d, i - first + 1);
                assert(value * 10 + digit > usize::MAX) by (nonlinear_arith)
                    requires
                        value > (usize::MAX - digit) / 10,
                        digit <= 9,
                ;
                assert(parse_index(field) is None);
            }
            return None;
        }
        assert(value * 10 + digit <= usize::MAX) by (nonlinear_arith)
            requires
                value <= (usize::MAX - digit) / 10,
                digit <= 9,
        ;
        value = value * 10 + digit;
        i = i + 1;
    }
    assert(d.take(end - first) =~= d);
    Some(value)
}

/// Resolves the face corner `token` against the `positions`, `uvs` and
/// `normals` items read so far. The position index must name one of them;
/// a missing, malformed or out-of-range texture or normal index leaves that
/// attribute unset.
pub fn face_vertex(token: &[u8], positions: usize, uvs: usize, normals: usize) -> (r: Result<
    FaceVertex,
    FaceError,
>)
    ensures
        r == face_vertex_of(token@, positions as nat, uvs as nat, normals as nat),
{
    // Field boundaries: field k is token[starts[k]..ends[k]].
    let mut starts: Vec<usize> = Vec::new();
    let mut ends: Vec<usize> = Vec::new();
    starts.push(0);
    let mut i: usize = 0;
    while i < token.len()
        invariant
            i <= token@.len(),
            starts@.len() == ends@.len() + 1,
            starts@.len() == slash_fields(token@.take(i as int)).len(),
            starts@[starts@.len() - 1] <= i,
            forall|k: int|
                0 <= k < ends@.len() ==> starts@[k] <= #[trigger] ends@[k] <= i && token@.subrange(
                    starts@[k] as int,
                    ends@[k] as int,
                ) == slash_fields(token@.take(i as int))[k],
            token@.subrange(starts@[starts@.len() - 1] as int, i as int) == slash_fields(
                token@.take(i as int),
            ).last(),
        decreases token@.len() - i,
    {
        let ghost before = slash_fields(token@.take(i as int));
        assert(token@.take(i + 1).drop_last() =~= token@.take(i as int));
        if token[i] == 47 {
            ends.push(i);
            starts.push(i + 1);
            assert(token@.subrange(i + 1, i + 1) =~= seq![]);
        } else {
            let ghost last = starts@[starts@.len() - 1] as int;
            assert(token@.subrange(last, i + 1) =~= token@.subrange(last, i as int).push(token@[i as int]));
        }
        i = i + 1;
    }
    ends.push(token.len());
    assert(token@.take(token@.len() as int) =~= token@);
    let ghost fields = slash_fields(token@);
    let position = match parse_index_exec(token, starts[0], ends[0]) {
        None => {
            return Err(FaceError::NotAnIndex);
        },
        Some(n) => n,
    };
    if position < 1 || position > positions {
        return Err(FaceError::OutOfBounds(position));
    }
    let uv = if starts.len() > 1 {
        match parse_index_exec(token, starts[1], ends[1]) {
            Some(n) => if 1 <= n && n <= uvs {
                Some(n - 1)
            } else {
                None
            },
            None => None,
        }
    } else {
        None
    };
    let normal = if starts.len() > 2 {
        match parse_index_exec(token, starts[2], ends[2]) {
            Some(n) => if 1 <= n && n <= normals {
                Some(n - 1)
            } else {
                None
            },
            None => None,
        }
    } else {
        None
    };
    Ok(FaceVertex { position: position - 1, uv, normal })
}

} // verus!
