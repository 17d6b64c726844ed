//! What components exchange: opaque byte messages and tick results, and
//! how a component declares the names it relates to.

use vstd::prelude::*;
use crate::components::ComponentDecl;

verus! {

/// A message sent from one component to another, as encoded bytes.
#[derive(Clone)]
pub struct ComponentMessage {
    data: Vec<u8>,
}

/// What a component produces at each tick, as encoded bytes.
#[derive(Clone)]
pub struct ComponentResult {
    data: Vec<u8>,
}

impl View for ComponentMessage {
    type V = Seq<u8>;

    closed spec fn view(&self) -> Seq<u8> {
        self.data@
    }
}

impl View for ComponentResult {
    type V = Seq<u8>;

    closed spec fn view(&self) -> Seq<u8> {
        self.data@
    }
}

impl ComponentMessage {
    /// A message carrying the encoded bytes.
    pub fn from_bytes(data: Vec<u8>) -> (m: Self)
        ensures
            m@ == data@,
    {
        ComponentMessage { data }
    }

    /// The encoded bytes of the message.
    pub fn bytes(&self) -> (r: &Vec<u8>)
        ensures
            r@ == self@,
    {
        &self.data
    }
}

impl ComponentResult {
    /// A result carrying the encoded bytes.
    pub fn from_bytes(data: Vec<u8>) -> (m: Self)
        ensures
            m@ == data@,
    {
        ComponentResult { data }
    }

    /// The encoded bytes of the result.
    pub fn bytes(&self) -> (r: &Vec<u8>)
        ensures
            r@ == self@,
    {
        &self.data
    }
}

/// The result of a component with nothing to say: no bytes.
pub fn default_component_result() -> (r: ComponentResult)
    ensures
        r@ == Seq::<u8>::empty(),
{
    ComponentResult { data: Vec::new() }
}

/// The names a component relates to. Peers, requirements and notified
/// components are meant to be disjoint; by default there are none, and an
/// implementation may list its own.
pub trait JokolayComponentDeps {
    fn peer(&self) -> (r: Vec<&str>)
        default_ensures
            r@.len() == 0,
    {
        Vec::new()
    }

    fn requirements(&self) -> (r: Vec<&str>)
        default_ensures
            r@.len() == 0,
    {
        Vec::new()
    }

    fn notify(&self) -> (r: Vec<&str>)
        default_ensures
            r@.len() == 0,
    {
        Vec::new()
    }
}

/// The name under which the Mumble Link back end is registered.
pub const MUMBLE_LINK_BACK_NAME: &'static str = "back:mumble_link";

/// A plugin: it requires the Mumble Link back end and produces nothing.
pub struct JokolayPlugin {}

/// The manager of plugins.
pub struct JokolayPluginManager {}

impl JokolayPlugin {
    /// The declaration the plugin registers with: it requires the Mumble
    /// Link back end, has no peer, notifies nobody and takes no notification.
    pub fn decl(&self) -> (d: ComponentDecl)
        ensures
            d.peers.len() == 0,
            d.notify.len() == 0,
            d.requirements.len() == 1,
            d.requirements[0]@ == MUMBLE_LINK_BACK_NAME@,
            !d.accept_notifications,
    {
        let mut requirements: Vec<String> = Vec::new();
        requirements.push(MUMBLE_LINK_BACK_NAME.to_owned());
        ComponentDecl { peers: Vec::new(), requirements, notify: Vec::new(), accept_notifications: false }
    }

    /// One tick of the plugin: the empty result.
    pub fn tick(&mut self) -> (r: ComponentResult)
        ensures
            r@ == Seq::<u8>::empty(),
    {
        default_component_result()
    }
}

} // verus!
