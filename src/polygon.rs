use vstd::prelude::*;

verus! {

/// Why a mesh's faces cannot be turned into triangles.
#[derive(PartialEq, Eq, Structural, Clone, Copy, Debug)]
pub enum MeshError {
    /// The face at this position lists fewer than three vertices.
    ShortFace(usize),
    /// One of the first three vertices of the face at this position is
    /// negative or not below the number of vertices.
    VertexOutOfRange(usize),
}

/// A face lists at least three vertices and its first three name vertices
/// of the mesh.
pub open spec fn face_ok(f: Seq<i32>, n_vertices: nat) -> bool {
    &&& f.len() >= 3
    &&& forall|j: int| 0 <= j < 3 ==> 0 <= #[trigger] f[j] < n_vertices
}

/// Face `k` is the first face that is not `face_ok`.
pub open spec fn first_bad(faces: Seq<Vec<i32>>, n_vertices: nat, k: int) -> bool {
    &&& 0 <= k < faces.len()
    &&& !face_ok(faces[k]@, n_vertices)
    &&& forall|j: int| 0 <= j < k ==> face_ok(#[trigger] faces[j]@, n_vertices)
}

/// The triangle of a face: its first three vertices.
pub open spec fn triangle_of(f: Seq<i32>) -> (usize, usize, usize) {
    (f[0] as usize, f[1] as usize, f[2] as usize)
}

/// Turns each face of a mesh into the triangle of its first three vertices.
pub fn face_triangles(faces: &Vec<Vec<i32>>, n_vertices: usize) -> (r: Result<Vec<(usize, usize, usize)>, MeshError>)
    ensures
        r.is_ok() == (forall|k: int| 0 <= k < faces@.len() ==> face_ok(#[trigger] faces@[k]@, n_vertices as nat)),
        r.is_ok() ==> r.unwrap()@.len() == faces@.len(),
        r.is_ok() ==> forall|k: int| 0 <= k < faces@.len() ==> #[trigger] r.unwrap()@[k] == triangle_of(faces@[k]@),
        forall|k: usize| r == Err::<Vec<(usize, usize, usize)>, MeshError>(MeshError::ShortFace(k)) <==> (first_bad(faces@, n_vertices as nat, k as int) && faces@[k as int]@.len() < 3),
        forall|k: usize| r == Err::<Vec<(usize, usize, usize)>, MeshError>(MeshError::VertexOutOfRange(k)) <==> (first_bad(faces@, n_vertices as nat, k as int) && faces@[k as int]@.len() >= 3),
{
    let mut tris: Vec<(usize, usize, usize)> = Vec::new();
    let mut k: usize = 0;
    while k < faces.len()
        invariant
            k <= faces@.len(),
            tris@.len() == k,
            forall|j: int| 0 <= j < k ==> face_ok(#[trigger] faces@[j]@, n_vertices as nat),
            forall|j: int| 0 <= j < k ==> #[trigger] tris@[j] == triangle_of(faces@[j]@),
        decreases faces@.len() - k,
    {
        let f = &faces[k];
        if f.len() < 3 {
            return Err(MeshError::ShortFace(k));
        }
        let a = f[0];
        let b = f[1];
        let c = f[2];
        if a < 0 || b < 0 || c < 0 || a as usize >= n_vertices || b as usize >= n_vertices || c as usize >= n_vertices {
            proof {
                assert(!face_ok(faces@[k as int]@, n_vertices as nat));
            }
            return Err(MeshError::VertexOutOfRange(k));
        }
        proof {
            assert(face_ok(faces@[k as int]@, n_vertices as nat));
        }
        tris.push((a as usize, b as usize, c as usize));
        k = k + 1;
    }
    Ok(tris)
}

} // verus!
