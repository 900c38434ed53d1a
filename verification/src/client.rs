//! What a client tells its user when no server answers.
use vstd::prelude::*;
use crate::text::{decimal, push_decimal, same_text};

verus! {

/// The address on which the server listens where none is given.
pub const DEFAULT_IP: &'static str = "127.0.0.1";

/// The port on which the server listens where none is given.
pub const DEFAULT_PORT: u16 = 42069;

/// The options that make the server listen where the client has looked
/// for it: none for the default address and port.
pub open spec fn server_options(ip: Seq<char>, port: u16) -> Seq<char> {
    if ip == DEFAULT_IP@ && port == DEFAULT_PORT {
        Seq::<char>::empty()
    } else {
        " --"@ + (if ip != DEFAULT_IP@ {
            " -i "@ + ip
        } else {
            Seq::<char>::empty()
        }) + (if port != DEFAULT_PORT {
            " -p "@ + decimal(port as nat)
        } else {
            Seq::<char>::empty()
        })
    }
}

/// The advice for a user whose client found no server.
pub open spec fn refused(tried: Seq<char>, ip: Seq<char>, port: u16) -> Seq<char> {
    "No server listening on "@ + tried + "\n"@
        + "Try running: cargo run --release --bin chat-server"@ + server_options(ip, port)
}

/// The advice for a user whose client found no server at the address
/// `tried`, which has the IP address `ip`, both as they are written, and
/// the port `port`: how to start a server there.
pub fn connection_refused(tried: &str, ip: &str, port: u16) -> (msg: String)
    ensures
        msg@ == refused(tried@, ip@, port),
{
    let mut msg = String::from_str("No server listening on ");
    msg.append(tried);
    msg.append("\n");
    msg.append("Try running: cargo run --release --bin chat-server");
    let ghost head = msg@;
    let default_ip = same_text(ip, DEFAULT_IP);
    if port != DEFAULT_PORT || !default_ip {
        msg.append(" --");
        if !default_ip {
            msg.append(" -i ");
            msg.append(ip);
        }
        if port != DEFAULT_PORT {
            msg.append(" -p ");
            push_decimal(&mut msg, port as u64);
        }
        proof {
            let i_part = if ip@ != DEFAULT_IP@ {
                " -i "@ + ip@
            } else {
                Seq::<char>::empty()
            };
            let p_part = if port != DEFAULT_PORT {
                " -p "@ + decimal(port as nat)
            } else {
                Seq::<char>::empty()
            };
            assert(msg@ =~= head + (" --"@ + i_part + p_part));
        }
    } else {
        assert(msg@ =~= head + Seq::<char>::empty());
    }
    msg
}

} // verus!
