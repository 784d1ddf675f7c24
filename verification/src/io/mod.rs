//! Mesh files: OBJ and PLY read and written here; the kind of a file is
//! told by its extension.
use vstd::prelude::*;
use crate::text::lower;
use obj::{ObjError, ObjMesh, obj_file};
use ply::{PlyError, PlyLoad, ply_file};
use stl::{StlError, StlLoad, stl_file};

pub mod obj;
pub mod obj_roundtrip;
pub mod num;
pub mod ply;
pub mod ply_ascii;
pub mod ply_roundtrip;
pub mod stl;

verus! {

/// What `load_any` read, by the kind of file.
pub enum LoadedMesh {
    Stl(StlLoad),
    Ply(PlyLoad),
    Obj(ObjMesh),
}

/// Why `load_any` refused a file.
pub enum LoadError {
    Stl(StlError),
    Ply(PlyError),
    Obj(ObjError),
    /// The (lower-cased) extension is none of `stl`, `ply`, `obj`.
    UnsupportedType(Vec<char>),
}

/// ASCII lower-casing of a text.
pub open spec fn lower_text(s: Seq<char>) -> Seq<char> {
    s.map_values(|c: char| lower(c))
}

fn lower_chars(s: &[char]) -> (r: Vec<char>)
    ensures
        r@ == lower_text(s@),
{
    let mut r: Vec<char> = Vec::new();
    let mut i: usize = 0;
    while i < s.len()
        invariant
            i <= s@.len(),
            r@ == lower_text(s@.take(i as int)),
        decreases s@.len() - i,
    {
        let c = s[i];
        let l = if 'A' <= c && c <= 'Z' {
            proof {
                broadcast use vstd::utf8::char_u32_cast;
            }
            char_from_upper(c)
        } else {
            c
        };
        r.push(l);
        i += 1;
        assert(r@ =~= lower_text(s@.take(i as int)));
    }
    assert(s@.take(s@.len() as int) =~= s@);
    r
}

/// The lower-case letter of an upper-case ASCII letter.
fn char_from_upper(c: char) -> (l: char)
    requires
        'A' <= c <= 'Z',
    ensures
        l == lower(c),
{
    match c {
        'A' => 'a', 'B' => 'b', 'C' => 'c', 'D' => 'd', 'E' => 'e', 'F' => 'f', 'G' => 'g',
        'H' => 'h', 'I' => 'i', 'J' => 'j', 'K' => 'k', 'L' => 'l', 'M' => 'm', 'N' => 'n',
        'O' => 'o', 'P' => 'p', 'Q' => 'q', 'R' => 'r', 'S' => 's', 'T' => 't', 'U' => 'u',
        'V' => 'v', 'W' => 'w', 'X' => 'x', 'Y' => 'y', _ => 'z',
    }
}

/// Reads a mesh file of the kind its extension `ext` names, in either case:
/// `stl`, `ply` or `obj`.
pub fn load_any(ext: &[char], bytes: &[u8]) -> (r: Result<LoadedMesh, LoadError>)
    ensures
        lower_text(ext@) == seq!['s', 't', 'l'] ==> match stl_file(bytes@) {
            Ok(v) => r matches Ok(LoadedMesh::Stl(s)) && s@ == v,
            Err(e) => r matches Err(LoadError::Stl(se)) && se@ == e,
        },
        lower_text(ext@) == seq!['p', 'l', 'y'] ==> match ply_file(bytes@) {
            Ok(v) => r matches Ok(LoadedMesh::Ply(p)) && p@ == v,
            Err(e) => r matches Err(LoadError::Ply(pe)) && pe@ == e,
        },
        lower_text(ext@) == seq!['o', 'b', 'j'] ==> match obj_file(bytes@) {
            Ok(m) => r matches Ok(LoadedMesh::Obj(om)) && om@ == m,
            Err(e) => r matches Err(LoadError::Obj(oe)) && oe == e,
        },
        lower_text(ext@) != seq!['s', 't', 'l'] && lower_text(ext@) != seq!['p', 'l', 'y']
            && lower_text(ext@) != seq!['o', 'b', 'j'] ==> (r matches Err(LoadError::UnsupportedType(t))
            && t@ == lower_text(ext@)),
{
    let e = lower_chars(ext);
    if ply::is_word(&e, &['s', 't', 'l']) {
        assert(['s', 't', 'l']@ =~= seq!['s', 't', 'l']);
        match stl::load(bytes) {
            Ok(s) => Ok(LoadedMesh::Stl(s)),
            Err(err) => Err(LoadError::Stl(err)),
        }
    } else if ply::is_word(&e, &['p', 'l', 'y']) {
        assert(['p', 'l', 'y']@ =~= seq!['p', 'l', 'y']);
        match ply::load(bytes) {
            Ok(p) => Ok(LoadedMesh::Ply(p)),
            Err(err) => Err(LoadError::Ply(err)),
        }
    } else if ply::is_word(&e, &['o', 'b', 'j']) {
        assert(['o', 'b', 'j']@ =~= seq!['o', 'b', 'j']);
        match obj::load(bytes) {
            Ok(m) => Ok(LoadedMesh::Obj(m)),
            Err(err) => Err(LoadError::Obj(err)),
        }
    } else {
        assert(['s', 't', 'l']@ =~= seq!['s', 't', 'l']);
        assert(['p', 'l', 'y']@ =~= seq!['p', 'l', 'y']);
        assert(['o', 'b', 'j']@ =~= seq!['o', 'b', 'j']);
        Err(LoadError::UnsupportedType(e))
    }
}

} // verus!
