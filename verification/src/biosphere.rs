use vstd::prelude::*;

verus! {

#[verifier::external_type_specification]
#[verifier::external_body]
pub struct ExVec3(glam::Vec3);

/// A connected player, known by the id of its client; players are ordered by that id.
#[derive(Clone, Copy, Debug, PartialEq, Eq, Structural, PartialOrd, Ord)]
pub struct Player {
    client_id: u64,
}

impl Player {
    pub closed spec fn spec_client_id(&self) -> u64 {
        self.client_id
    }

    /// The player of client `p_client_id`.
    pub fn new(p_client_id: u64) -> (r: Player)
        ensures
            r.spec_client_id() == p_client_id,
    {
        Player { client_id: p_client_id }
    }

    /// Two players of the same client are the same player.
    pub proof fn lemma_client_id_determines(a: Player, b: Player)
        requires
            a.spec_client_id() == b.spec_client_id(),
        ensures
            a == b,
    {
    }

    /// The id of the player's client.
    pub fn client_id(&self) -> (r: &u64)
        ensures
            *r == self.spec_client_id(),
    {
        &self.client_id
    }
}

/// Where an entity is and where it looks.
#[derive(Clone, Copy, Debug)]
pub struct Spatial {
    pub position: glam::Vec3,
    pub direction: glam::Vec3,
}

} // verus!
