//! A cache of font files, each read at most once unless a reload is asked for.
use vstd::prelude::*;

verus! {

/// Whether a file whose earlier reading failed is read again.
#[derive(Clone, Copy, Debug, PartialEq, Eq, Structural)]
pub enum ForceLoad {
    True,
    False,
}

/// Why a font file could not be read.
#[derive(Debug, PartialEq, Eq)]
pub enum FontLoadError {
    IOError(String),
}

impl FontLoadError {
    /// The message that describes the failure.
    pub fn message(&self) -> (r: String)
        ensures
            r@ == match self {
                FontLoadError::IOError(m) => m@,
            },
    {
        match self {
            FontLoadError::IOError(m) => m.clone(),
        }
    }
}

/// What was read from a file: its bytes, or why that failed.
pub type LoadResult = Result<Vec<u8>, FontLoadError>;

/// The view of a read: the bytes, or the message of the failure.
pub open spec fn load_view(r: LoadResult) -> Result<Seq<u8>, Seq<char>> {
    match r {
        Ok(v) => Ok(v@),
        Err(FontLoadError::IOError(m)) => Err(m@),
    }
}

fn copy_result(r: &LoadResult) -> (c: LoadResult)
    ensures
        load_view(c) == load_view(*r),
{
    match r {
        Ok(v) => Ok(v.clone()),
        Err(e) => Err(FontLoadError::IOError(e.message())),
    }
}

/// Font files by path, with what reading each one gave.
pub struct FontLoader {
    pub faces: Vec<(String, LoadResult)>,
}

impl FontLoader {
    /// The cache as `(path, result)` pairs.
    pub open spec fn view_faces(self) -> Seq<(Seq<char>, Result<Seq<u8>, Seq<char>>)> {
        self.faces@.map_values(|e: (String, LoadResult)| (e.0@, load_view(e.1)))
    }

    /// No path appears twice.
    pub open spec fn wf(self) -> bool {
        forall|i: int, j: int|
            0 <= i < j < self.faces@.len() ==> (#[trigger] self.faces@[i]).0@ != (#[trigger] self.faces@[j]).0@
    }

    pub fn new() -> (r: FontLoader)
        ensures
            r.wf(),
            r.faces@.len() == 0,
    {
        FontLoader { faces: Vec::new() }
    }

    /// The bytes of the font file at `path`. A file is read, through `load`,
    /// the first time it is asked for, and again when its last reading failed
    /// and `force` is `ForceLoad::True`; otherwise the remembered result comes
    /// back.
    pub fn get<F: FnOnce(&String) -> LoadResult>(&mut self, path: String, force: ForceLoad, load: F) -> (r: LoadResult)
        requires
            old(self).wf(),
            load.requires((&path,)),
        ensures
            final(self).wf(),
            ({
                let i = choose|i: int| 0 <= i < old(self).faces@.len() && (#[trigger] old(self).faces@[i]).0@ == path@;
                if exists|i: int| 0 <= i < old(self).faces@.len() && (#[trigger] old(self).faces@[i]).0@ == path@ {
                    if old(self).faces@[i].1 is Err && force == ForceLoad::True {
                        load.ensures((&path,), r) && final(self).view_faces() == old(self).view_faces().update(i, (path@, load_view(r)))
                    } else {
                        load_view(r) == load_view(old(self).faces@[i].1) && final(self).view_faces() == old(self).view_faces()
                    }
                } else {
                    load.ensures((&path,), r) && final(self).view_faces() == old(self).view_faces().push((path@, load_view(r)))
                }
            }),
    {
        let n = self.faces.len();
        let mut i: usize = 0;
        while i < n
            invariant
                n == self.faces@.len(),
                i <= n,
                self.wf(),
                *self == *old(self),
                load.requires((&path,)),
                forall|k: int| 0 <= k < i ==> (#[trigger] self.faces@[k]).0@ != path@,
            decreases n - i,
        {
            if self.faces[i].0 == path {
                let reload = match &self.faces[i].1 {
                    Err(_) => force == ForceLoad::True,
                    Ok(_) => false,
                };
                assert(self.faces@[i as int].0@ == path@);
                assert(forall|j: int| 0 <= j < n && (#[trigger] self.faces@[j]).0@ == path@ ==> j == i);
                if reload {
                    let fresh = load(&path);
                    let kept = copy_result(&fresh);
                    let ghost before = self.view_faces();
                    self.faces.set(i, (path, kept));
                    assert(self.view_faces() =~= before.update(i as int, (self.faces@[i as int].0@, load_view(kept))));
                    assert(self.wf()) by {
                        assert forall|a: int, b: int| 0 <= a < b < self.faces@.len() implies (#[trigger] self.faces@[a]).0@ != (#[trigger] self.faces@[b]).0@ by {
                            assert(self.view_faces()[a].0 == self.faces@[a].0@);
                            assert(self.view_faces()[b].0 == self.faces@[b].0@);
                            assert(before[a].0 == old(self).faces@[a].0@);
                            assert(before[b].0 == old(self).faces@[b].0@);
                        }
                    }
                    return fresh;
                }
                return copy_result(&self.faces[i].1);
            }
            i = i + 1;
        }
        let fresh = load(&path);
        let kept = copy_result(&fresh);
        let ghost before = self.view_faces();
        self.faces.push((path, kept));
        assert(self.view_faces() =~= before.push((self.faces@[n as int].0@, load_view(kept))));
        assert(self.wf()) by {
            assert forall|a: int, b: int| 0 <= a < b < self.faces@.len() implies (#[trigger] self.faces@[a]).0@ != (#[trigger] self.faces@[b]).0@ by {
                if b == n {
                    assert(old(self).faces@[a].0@ != path@);
                } else {
                    assert(old(self).faces@[a] == self.faces@[a]);
                    assert(old(self).faces@[b] == self.faces@[b]);
                }
            }
        }
        fresh
    }
}

} // verus!
