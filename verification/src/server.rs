//! The capture server's verified side: holding the detector and turning
//! each captured frame into an observation. The capture loop itself — the
//! device, the filter, the blocking reads — lives with the caller.

use vstd::prelude::*;
use crate::model::observe_spec;
use crate::parser::parse_ethernet_ip_packet;
use crate::parser::spec_parse_ethernet;
use crate::sequence::SequenceDetector;

verus! {

/// The server: a capture interface name and the detector fed from it.
pub struct Server<D: SequenceDetector> {
    /// Name of the interface to capture on; opaque to the detector.
    pub interface_name: String,
    /// The sequence detector.
    pub detector: D,
}

impl<D: SequenceDetector> Server<D> {
    /// Packages an interface name and a detector.
    pub fn new(interface: String, detector: D) -> (r: Box<Server<D>>)
        ensures
            r.interface_name@ == interface@,
            r.detector == detector,
    {
        Box::new(Server { interface_name: interface, detector })
    }

    /// Feeds one captured frame to the detector: a frame that parses as
    /// TCP over IPv4 or IPv6 yields an observation at the wall clock's
    /// current time; any other frame is ignored.
    pub fn handle_packet(&mut self, packet: &[u8])
        requires
            old(self).detector.wf(),
        ensures
            final(self).detector.wf(),
            final(self).interface_name == old(self).interface_name,
            (spec_parse_ethernet(packet@) is None ==> final(self).detector == old(self).detector),
            (spec_parse_ethernet(packet@) is Some ==> exists|now: u128|
                final(self).detector.model() == observe_spec(
                    old(self).detector.model(),
                    spec_parse_ethernet(packet@)->0.source_ip,
                    spec_parse_ethernet(packet@)->0.destination_port,
                    now,
                )),
    {
        match parse_ethernet_ip_packet(packet) {
            Some(info) => {
                let ghost pm = info@;
                let ghost m0 = self.detector.model();
                let port: u16 = info.destination_port;
                let ip = info.source_ip;
                let ghost ipv = ip@;
                self.detector.add_sequence(ip, port);
                proof {
                    assert(spec_parse_ethernet(packet@)->0 == pm);
                    assert(ipv == pm.source_ip);
                    assert(exists|now: u128|
                        self.detector.model() == observe_spec(m0, ipv, port, now));
                    let w = choose|now: u128|
                        self.detector.model() == observe_spec(m0, ipv, port, now);
                    assert(self.detector.model() == observe_spec(
                        old(self).detector.model(),
                        pm.source_ip,
                        pm.destination_port,
                        w,
                    ));
                    assert(exists|now: u128|
                        self.detector.model() == observe_spec(
                            old(self).detector.model(),
                            pm.source_ip,
                            pm.destination_port,
                            now,
                        ));
                }
            },
            None => {},
        }
    }
}

} // verus!
