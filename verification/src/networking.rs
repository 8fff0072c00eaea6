//! What the transport needs computed: the address that is asked, the
//! request that is sent, and the body of what comes back.

pub mod header;
pub mod response;
pub mod url;
