//! Making maps that tell listeners of their changes.

use vstd::prelude::*;
use crate::btree::map::BTreeMap;
use crate::error::Result;
use crate::listener::{
    Listeners, MapModificationListener, ObservedMap, SynchronousMapModificationListener,
};
use crate::ser::{KeyFormat, Serializer};
use crate::store::Store;
use super::db::DB;
use super::descriptor::GroupDescriptor;
use super::makers::TreeMapMaker;
use super::schema::field_key;

verus! {

/// Makes a sorted map with listeners.
pub struct ObservedMapMaker<KF: KeyFormat, VF: Serializer, L> {
    maker: TreeMapMaker<KF, VF>,
    listeners: Listeners<L>,
}

impl<KF: KeyFormat, VF: Serializer> TreeMapMaker<KF, VF> {
    /// Has the map tell a listener of its changes.
    pub fn modification_listener<L>(self, id: u64, listener: L) -> (r: ObservedMapMaker<KF, VF, L>)
        ensures
            r.plain() == self,
            r.audience().ids() == seq![id],
            r.audience().at(0) == listener,
    {
        let mut listeners = Listeners::new();
        listeners.add(id, listener);
        assert(listeners.ids() =~= seq![id]);
        ObservedMapMaker { maker: self, listeners }
    }
}

/// The map without its listeners, where it was made.
pub open spec fn bare<
    KF: KeyFormat,
    VF: Serializer,
    Y: SynchronousMapModificationListener<KF::Item, VF::Item>,
    L: MapModificationListener<KF::Item, VF::Item>,
>(r: Result<ObservedMap<KF, VF, Y, L>>) -> Result<BTreeMap<KF, VF>> {
    match r {
        Ok(o) => Ok(o.backing()),
        Err(e) => Err(e),
    }
}

impl<KF: KeyFormat, VF: Serializer, L> ObservedMapMaker<KF, VF, L> {
    /// The maker of the map without listeners.
    pub closed spec fn plain(&self) -> TreeMapMaker<KF, VF> {
        self.maker
    }

    /// The listeners that the map gets.
    pub closed spec fn audience(&self) -> Listeners<L> {
        self.listeners
    }

    /// Has the map tell one more listener; one whose number is taken is ignored.
    pub fn modification_listener(self, id: u64, listener: L) -> (r: Self)
        ensures
            r.plain() == self.plain(),
            self.audience().ids().contains(id) ==> r.audience() == self.audience(),
            !self.audience().ids().contains(id) ==> r.audience().ids()
                == self.audience().ids().push(id) && r.audience().at(
                self.audience().ids().len() as int,
            ) == listener,
            forall|i: int|
                0 <= i < self.audience().ids().len() ==> #[trigger] r.audience().at(i)
                    == self.audience().at(i),
    {
        let mut listeners = self.listeners;
        listeners.add(id, listener);
        ObservedMapMaker { maker: self.maker, listeners }
    }
}

impl<
    KF: KeyFormat + GroupDescriptor,
    VF: Serializer + GroupDescriptor,
    L: MapModificationListener<KF::Item, VF::Item>,
> ObservedMapMaker<KF, VF, L> {
    /// A map that was made has the listeners that it was to get.
    pub open spec fn heard_by<Y: SynchronousMapModificationListener<KF::Item, VF::Item>>(
        &self,
        r: Result<ObservedMap<KF, VF, Y, L>>,
    ) -> bool {
        r matches Ok(o) ==> o.sync_listeners().ids().len() == 0 && o.deferred_listeners()
            == self.audience()
    }

    /// Creates the map; its name must be free.
    pub fn create<S: Store, Y: SynchronousMapModificationListener<KF::Item, VF::Item>>(
        self,
        db: &mut DB<S>,
    ) -> (r: Result<ObservedMap<KF, VF, Y, L>>)
        requires
            old(db).wf(),
        ensures
            self.plain().create_post(old(db), final(db), bare(r)),
            self.heard_by(r),
    {
        match self.maker.create(db) {
            Ok(map) => Ok(ObservedMap::with_listeners(map, self.listeners)),
            Err(e) => Err(e),
        }
    }

    /// Opens the map.
    pub fn open<S: Store, Y: SynchronousMapModificationListener<KF::Item, VF::Item>>(
        self,
        db: &DB<S>,
    ) -> (r: Result<ObservedMap<KF, VF, Y, L>>)
        requires
            db.wf(),
        ensures
            self.plain().open_post(db, bare(r)),
            self.heard_by(r),
    {
        match self.maker.open(db) {
            Ok(map) => Ok(ObservedMap::with_listeners(map, self.listeners)),
            Err(e) => Err(e),
        }
    }

    /// Opens the map where there is one of its name, and creates it where there is none.
    pub fn create_or_open<S: Store, Y: SynchronousMapModificationListener<KF::Item, VF::Item>>(
        self,
        db: &mut DB<S>,
    ) -> (r: Result<ObservedMap<KF, VF, Y, L>>)
        requires
            old(db).wf(),
        ensures
            ({
                let known = old(db).names().contains_key(field_key(self.plain().title(), "type"@));
                &&& old(db).is_shut() || known ==> *final(db) == *old(db)
                    && self.plain().open_post(old(db), bare(r))
                &&& !old(db).is_shut() && !known ==> self.plain().create_post(
                    old(db),
                    final(db),
                    bare(r),
                )
            }),
            self.heard_by(r),
    {
        match self.maker.create_or_open(db) {
            Ok(map) => Ok(ObservedMap::with_listeners(map, self.listeners)),
            Err(e) => Err(e),
        }
    }
}

} // verus!
