//! Updating everything at once: every active entry that carries metadata
//! contributes its `update` source, and the resulting list is installed as a
//! normal batch, with the upgrade path replacing each package in place.

use vstd::prelude::*;
use crate::record::{Record, RecordItemV};

verus! {

/// Why an update failed.
#[derive(Debug)]
pub enum Error {
    /// The record store failed.
    Record(crate::record::Error),
    /// Installing the collected update sources failed.
    Install(crate::install::Error),
}

/// The `update` sources of the entries that carry metadata, in record order;
/// entries without metadata are not updatable and contribute nothing.
pub open spec fn update_items_of(s: Seq<(Seq<char>, RecordItemV)>) -> Seq<Seq<char>>
    decreases s.len(),
{
    if s.len() == 0 {
        seq![]
    } else {
        update_items_of(s.drop_last()) + match s.last().1.metadata {
            Some(m) => seq![m.update],
            None => seq![],
        }
    }
}

/// The install sources one `update` run feeds to the installer.
pub fn collect_update_items(record: &Record) -> (r: Vec<String>)
    ensures
        r.deep_view() == update_items_of(record@.installed),
{
    let mut out: Vec<String> = Vec::new();
    let mut i: usize = 0;
    while i < record.installed.len()
        invariant
            i <= record.installed.len(),
            out.deep_view() == update_items_of(record@.installed.take(i as int)),
        decreases record.installed.len() - i,
    {
        proof {
            assert(record@.installed.take(i + 1 as int).drop_last() =~= record@.installed.take(
                i as int,
            ));
            assert(record@.installed.take(i + 1 as int).last() == record@.installed[i as int]);
        }
        let ghost before = out.deep_view();
        match &record.installed[i].1.metadata {
            Some(m) => {
                out.push(m.update.clone());
                proof {
                    assert(out.deep_view() =~= before.push(
                        record@.installed[i as int].1.metadata->Some_0.update,
                    ));
                }
            },
            None => {
                proof {
                    assert(out.deep_view() =~= before + Seq::<Seq<char>>::empty());
                }
            },
        }
        i = i + 1;
    }
    proof {
        assert(record@.installed.take(record@.installed.len() as int) =~= record@.installed);
    }
    out
}

} // verus!
