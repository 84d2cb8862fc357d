use vstd::prelude::*;

use crate::flow::Flow;
use crate::keyed::{keyed, keys_unique, Keyed};
use crate::keys::shortid;
use crate::track::key_views;

verus! {

#[derive(Clone, Copy, Debug, PartialEq, Eq, Structural)]
pub enum PlayerType {
    Solo,
    Section,
}

/// A performer slot: a soloist or a section, holding instruments.
pub struct Player {
    pub key: String,
    pub player_type: PlayerType,
    /// Keys of the player's instruments, in order.
    pub instruments: Vec<String>,
    pub name: Option<String>,
}

impl Keyed for Player {
    open spec fn key_of(&self) -> Seq<char> {
        self.key@
    }

    fn key_str(&self) -> (r: &String) {
        &self.key
    }
}

impl Player {
    /// A new player of the given type, with a fresh key and no instruments.
    pub fn new(player_type: PlayerType) -> (r: Player)
        ensures
            r.player_type == player_type,
            r.instruments@ == Seq::<String>::empty(),
            r.name is None,
    {
        Player { key: shortid(), player_type, instruments: Vec::new(), name: None }
    }
}

/// The players of a score, in roster order.
pub struct Players {
    pub order: Vec<Player>,
}

impl Players {
    pub fn new() -> (r: Self)
        ensures
            r.order@ == Seq::<Player>::empty(),
    {
        Self { order: Vec::new() }
    }
}

/// A playable part.
pub struct Instrument {
    pub key: String,
    /// Catalog id of the instrument's definition.
    pub id: String,
    pub long_name: String,
    pub short_name: String,
    /// Keys of the instrument's staves; each flow that the instrument plays
    /// in holds a stave under each of them.
    pub staves: Vec<String>,
    /// Ordinal among instruments of the same name, where there are several.
    pub count: Option<usize>,
}

impl Keyed for Instrument {
    open spec fn key_of(&self) -> Seq<char> {
        self.key@
    }

    fn key_str(&self) -> (r: &String) {
        &self.key
    }
}

/// The flows of a score, in order.
pub struct Flows {
    pub order: Vec<Flow>,
}

impl Flows {
    /// One new flow.
    pub fn new() -> (r: Flows)
        ensures
            r.order@.len() == 1,
            r.order@[0].wf(),
            r.order@[0].players@ == Seq::<String>::empty(),
            r.order@[0].staves@.len() == 0,
            r.order@[0].tracks@.len() == 0,
    {
        let mut order: Vec<Flow> = Vec::new();
        order.push(Flow::new());
        Flows { order }
    }
}

#[derive(Clone, Copy, Debug, PartialEq, Eq, Structural)]
pub enum AutoCountStyle {
    Arabic,
    Roman,
}

/// How ordinals of same-named instruments are written.
#[derive(Clone, Copy, Debug, PartialEq, Eq, Structural)]
pub struct AutoCount {
    pub solo: AutoCountStyle,
    pub section: AutoCountStyle,
}

impl AutoCount {
    pub fn new() -> (r: AutoCount)
        ensures
            r.solo == AutoCountStyle::Roman,
            r.section == AutoCountStyle::Roman,
    {
        AutoCount { solo: AutoCountStyle::Roman, section: AutoCountStyle::Roman }
    }
}

#[derive(Clone, Copy, Debug, PartialEq, Eq, Structural)]
pub struct Config {
    pub auto_count: AutoCount,
}

impl Config {
    pub fn new() -> (r: Config)
        ensures
            r.auto_count == (AutoCount { solo: AutoCountStyle::Roman, section: AutoCountStyle::Roman }),
    {
        Config { auto_count: AutoCount::new() }
    }
}

/// The score's titles and credits.
pub struct Meta {
    pub title: String,
    pub subtitle: String,
    pub composer: String,
    pub arranger: String,
    pub lyricist: String,
    pub copyright: String,
}

impl Meta {
    pub fn new() -> (r: Meta)
        ensures
            r.title@ == Seq::<char>::empty(),
            r.subtitle@ == Seq::<char>::empty(),
            r.composer@ == Seq::<char>::empty(),
            r.arranger@ == Seq::<char>::empty(),
            r.lyricist@ == Seq::<char>::empty(),
            r.copyright@ == Seq::<char>::empty(),
    {
        Meta {
            title: String::new(),
            subtitle: String::new(),
            composer: String::new(),
            arranger: String::new(),
            lyricist: String::new(),
            copyright: String::new(),
        }
    }
}

/// The document: flows, players and instruments.
pub struct Score {
    pub meta: Meta,
    pub config: Config,
    pub flows: Flows,
    pub players: Players,
    pub instruments: Vec<Instrument>,
}

impl Score {
    /// Flows, players and instruments are each listed once under their keys,
    /// and every flow is well formed.
    pub open spec fn wf(&self) -> bool {
        &&& keys_unique(self.flows.order@)
        &&& forall|i: int| 0 <= i < self.flows.order@.len() ==> (#[trigger] self.flows.order@[i]).wf()
        &&& keys_unique(self.players.order@)
        &&& keys_unique(self.instruments@)
        &&& forall|i: int| 0 <= i < self.instruments@.len() ==> key_views((#[trigger] self.instruments@[i]).staves@).no_duplicates()
    }

    /// The instruments by key.
    pub open spec fn instrument_map(&self) -> Map<Seq<char>, Instrument> {
        keyed(self.instruments@)
    }

    /// A score of one empty flow.
    pub fn new() -> (r: Score)
        ensures
            r.wf(),
            r.flows.order@.len() == 1,
            r.players.order@.len() == 0,
            r.instruments@.len() == 0,
    {
        Score {
            meta: Meta::new(),
            config: Config::new(),
            flows: Flows::new(),
            players: Players::new(),
            instruments: Vec::new(),
        }
    }
}

} // verus!
