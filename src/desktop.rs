use vstd::prelude::*;

verus! {

/// Application protocol of a packet drawn in the desktop view.
#[derive(Debug, Clone, Copy, PartialEq, Eq, Structural)]
pub enum Protocol {
    Http,
    Https,
    Ssh,
}

/// Positions, in the view's port list (80, 443, 22, 8080), that a protocol
/// may target.
pub open spec fn port_indices(p: Protocol) -> Seq<u8> {
    match p {
        Protocol::Http => seq![0, 3],
        Protocol::Https => seq![1],
        Protocol::Ssh => seq![2],
    }
}

impl Protocol {
    pub fn target_port_indices(&self) -> (r: Vec<u8>)
        ensures
            r@ == port_indices(*self),
    {
        let mut r: Vec<u8> = Vec::new();
        match self {
            Protocol::Http => {
                r.push(0);
                r.push(3);
            },
            Protocol::Https => r.push(1),
            Protocol::Ssh => r.push(2),
        }
        assert(r@ =~= port_indices(*self));
        r
    }
}

} // verus!
