//! The layer list: one record per layer, as many as the header says.
//!
//! A record is the name of the layer, a lock flag, a volume and a signed
//! panning byte. Nothing marks the end of the list, and the place of a layer
//! in the list is not stored: a layer gets its `id` from the order of reading.

use crate::cursor::{
    bytes_at, flag_byte, holds_at, lemma_bytes_at_cut, lemma_bytes_written, lemma_holds_at_byte,
    lemma_holds_at_parts, length_prefixed, NbsParser, NbsWriter,
};
use crate::error::NbsError;
use crate::panning::{
    lemma_panning_read_back, panning_byte, panning_from_byte, panning_of, panning_to_byte,
};
use crate::song::{layer_views, Header, Layer, LayerView};
use vstd::prelude::*;

verus! {

/// A layer as it is written.
pub open spec fn layer_bytes(l: LayerView) -> Seq<u8> {
    length_prefixed(l.name) + seq![flag_byte(l.lock), l.volume, panning_byte(l.panning)]
}

/// A list of layers as it is written: one record after the other.
pub open spec fn layer_list_bytes(layers: Seq<LayerView>) -> Seq<u8>
    decreases layers.len(),
{
    if layers.len() == 0 {
        Seq::empty()
    } else {
        layer_bytes(layers[0]) + layer_list_bytes(layers.skip(1))
    }
}

/// The layer whose record starts at `pos`, with the given `id`, and the
/// position behind it. A layer is locked where its flag byte is 1.
pub open spec fn layer_at(s: Seq<u8>, pos: int, id: u16) -> Option<(LayerView, int)> {
    let name = bytes_at(s, pos);
    let rest = pos + 4 + (name->0).len();
    if name is None || rest + 3 > s.len() {
        None
    } else {
        Some(
            (
                LayerView {
                    id,
                    name: name->0,
                    lock: s[rest] == 1,
                    volume: s[rest + 1],
                    panning: panning_of(s[rest + 2]),
                },
                rest + 3,
            ),
        )
    }
}

/// The `count` layers whose records start at `pos`, numbered from `id` on,
/// and the position behind them.
pub open spec fn layers_at(s: Seq<u8>, pos: int, id: int, count: nat) -> Option<
    (Seq<LayerView>, int),
>
    decreases count,
{
    if count == 0 {
        Some((Seq::empty(), pos))
    } else {
        match layer_at(s, pos, id as u16) {
            None => None,
            Some((layer, next)) => match layers_at(s, next, id + 1, (count - 1) as nat) {
                None => None,
                Some((rest, end)) => Some((seq![layer] + rest, end)),
            },
        }
    }
}

/// `found` with `layers` put in front of the layers it holds.
pub open spec fn after_layers(layers: Seq<LayerView>, found: Option<(Seq<LayerView>, int)>)
    -> Option<(Seq<LayerView>, int)> {
    match found {
        Some((rest, end)) => Some((layers + rest, end)),
        None => None,
    }
}

/// The layers with their places in the list, counted from `first`, as their
/// `id`s.
pub open spec fn renumbered(layers: Seq<LayerView>, first: int) -> Seq<LayerView> {
    Seq::new(layers.len(), |i: int| LayerView { id: (first + i) as u16, ..layers[i] })
}

/// The length of each layer's name fits in 32 bits.
pub open spec fn layer_names_fit(layers: Seq<LayerView>) -> bool {
    forall|i: int| 0 <= i < layers.len() ==> (#[trigger] layers[i]).name.len() <= u32::MAX
}

/// A written layer is read back as it was, but for its `id`, which is the one
/// that the reader gives it.
pub proof fn lemma_layer_read_back(s: Seq<u8>, pos: int, l: LayerView, id: u16)
    requires
        holds_at(s, pos, layer_bytes(l)),
        l.name.len() <= u32::MAX,
    ensures
        layer_at(s, pos, id) == Some((LayerView { id, ..l }, pos + layer_bytes(l).len())),
{
    let tail = seq![flag_byte(l.lock), l.volume, panning_byte(l.panning)];
    lemma_holds_at_parts(s, pos, length_prefixed(l.name), tail);
    lemma_bytes_written(s, pos, l.name);
    lemma_panning_read_back(l.panning);
    let rest = pos + 4 + l.name.len();
    lemma_holds_at_byte(s, rest, tail, 0);
    lemma_holds_at_byte(s, rest, tail, 1);
    lemma_holds_at_byte(s, rest, tail, 2);
}

/// A written list of layers is read back as it was, numbered in order.
pub proof fn lemma_layers_read_back(s: Seq<u8>, pos: int, layers: Seq<LayerView>, first: int)
    requires
        holds_at(s, pos, layer_list_bytes(layers)),
        layer_names_fit(layers),
    ensures
        layers_at(s, pos, first, layers.len()) == Some(
            (renumbered(layers, first), pos + layer_list_bytes(layers).len()),
        ),
    decreases layers.len(),
{
    if layers.len() == 0 {
        assert(renumbered(layers, first) =~= Seq::<LayerView>::empty());
    } else {
        let rest = layers.skip(1);
        let record = layer_bytes(layers[0]);
        lemma_holds_at_parts(s, pos, record, layer_list_bytes(rest));
        lemma_layer_read_back(s, pos, layers[0], first as u16);
        assert forall|i: int| 0 <= i < rest.len() implies (#[trigger] rest[i]).name.len()
            <= u32::MAX by {
            assert(rest[i] == layers[i + 1]);
        }
        lemma_layers_read_back(s, pos + record.len(), rest, first + 1);
        assert(seq![LayerView { id: first as u16, ..layers[0] }] + renumbered(rest, first + 1)
            =~= renumbered(layers, first));
    }
}

/// Cutting a buffer short behind a layer leaves the layer as it is; cutting
/// it short inside the layer leaves none.
proof fn lemma_layer_at_cut(s: Seq<u8>, pos: int, id: u16, k: int)
    requires
        layer_at(s, pos, id) is Some,
        0 <= k <= s.len(),
    ensures
        pos <= (layer_at(s, pos, id)->0).1 <= s.len(),
        layer_at(s.take(k), pos, id) == if k >= (layer_at(s, pos, id)->0).1 {
            layer_at(s, pos, id)
        } else {
            None
        },
{
    let t = s.take(k);
    let rest = pos + 4 + (bytes_at(s, pos)->0).len();
    lemma_bytes_at_cut(s, pos, k);
    if k >= rest + 3 {
        assert(t[rest] == s[rest] && t[rest + 1] == s[rest + 1] && t[rest + 2] == s[rest + 2]);
    }
}

/// Cutting a buffer short behind a list of layers leaves the list as it is;
/// cutting it short inside the list leaves none. (A cut in front of the list
/// is left out: an empty list is found anywhere.)
pub proof fn lemma_layers_at_cut(s: Seq<u8>, pos: int, id: int, count: nat, k: int)
    requires
        layers_at(s, pos, id, count) is Some,
        0 <= pos <= k <= s.len(),
    ensures
        pos <= (layers_at(s, pos, id, count)->0).1 <= s.len(),
        layers_at(s.take(k), pos, id, count) == if k >= (layers_at(s, pos, id, count)->0).1 {
            layers_at(s, pos, id, count)
        } else {
            None
        },
    decreases count,
{
    if count > 0 {
        let first = layer_at(s, pos, id as u16)->0;
        lemma_layer_at_cut(s, pos, id as u16, k);
        if k >= first.1 {
            lemma_layers_at_cut(s, first.1, id + 1, (count - 1) as nat, k);
        } else {
            lemma_layers_at_cut(s, first.1, id + 1, (count - 1) as nat, s.len() as int);
        }
    }
}

impl<'a> NbsParser<'a> {
    /// Reads one layer record.
    fn read_layer(&mut self, id: u16) -> (r: Result<Layer, NbsError>)
        ensures
            final(self).bytes() == old(self).bytes(),
            match layer_at(old(self).bytes(), old(self).position(), id) {
                Some((layer, end)) => r matches Ok(l) && l@ == layer && final(self).position()
                    == end,
                None => r == Err::<Layer, NbsError>(NbsError::UnexpectedEndOfData)
                    && final(self).position() == old(self).position(),
            },
    {
        let mut ahead: NbsParser<'a> = *self;
        let name: Vec<u8> = ahead.read_string()?;
        let lock: bool = ahead.read_u8()? == 1;
        let volume: u8 = ahead.read_u8()?;
        let panning: i8 = panning_from_byte(ahead.read_u8()?);
        *self = ahead;
        Ok(Layer { id, name, lock, volume, panning })
    }

    /// Reads as many layers as `header` says the song has. The layers are
    /// numbered from 0 in the order in which they are read.
    pub fn parse_layers(&mut self, header: &Header) -> (r: Result<Vec<Layer>, NbsError>)
        ensures
            final(self).bytes() == old(self).bytes(),
            match layers_at(
                old(self).bytes(),
                old(self).position(),
                0,
                header.song_layers as nat,
            ) {
                Some((layers, end)) => r matches Ok(v) && layer_views(v@) == layers
                    && final(self).position() == end,
                None => r == Err::<Vec<Layer>, NbsError>(NbsError::UnexpectedEndOfData)
                    && final(self).position() == old(self).position(),
            },
    {
        let ghost s = self.bytes();
        let ghost whole = layers_at(s, self.position(), 0, header.song_layers as nat);
        let mut ahead: NbsParser<'a> = *self;
        let mut layers: Vec<Layer> = Vec::new();
        let mut id: u16 = 0;
        proof {
            assert(layer_views(layers@) + (whole->0).0 =~= (whole->0).0);
        }
        while id < header.song_layers
            invariant
                *self == *old(self),
                s == old(self).bytes(),
                ahead.bytes() == s,
                id <= header.song_layers,
                layers@.len() == id,
                whole == layers_at(s, old(self).position(), 0, header.song_layers as nat),
                whole == after_layers(
                    layer_views(layers@),
                    layers_at(s, ahead.position(), id as int, (header.song_layers - id) as nat),
                ),
            decreases header.song_layers - id,
        {
            let ghost before = layer_views(layers@);
            let ghost start = ahead.position();
            let layer: Layer = match ahead.read_layer(id) {
                Ok(layer) => layer,
                Err(e) => {
                    return Err(e);
                },
            };
            proof {
                let rest = layers_at(
                    s,
                    ahead.position(),
                    id + 1,
                    (header.song_layers - id - 1) as nat,
                );
                assert(layer_views(layers@.push(layer)) =~= before.push(layer@));
                if rest is Some {
                    let found = (rest->0).0;
                    assert(before + (seq![layer@] + found) =~= before.push(layer@) + found);
                }
            }
            layers.push(layer);
            id += 1;
        }
        proof {
            assert(layer_views(layers@) + Seq::<LayerView>::empty() =~= layer_views(layers@));
        }
        *self = ahead;
        Ok(layers)
    }
}

impl NbsWriter {
    /// Writes the layers one after the other. The `id` of a layer is not
    /// written.
    pub fn write_layers(&mut self, layers: &Vec<Layer>)
        ensures
            final(self)@ == old(self)@ + layer_list_bytes(layer_views(layers@)),
    {
        let ghost views = layer_views(layers@);
        let ghost whole = old(self)@ + layer_list_bytes(views);
        let mut i: usize = 0;
        proof {
            assert(views.skip(0) =~= views);
        }
        while i < layers.len()
            invariant
                i <= layers.len(),
                views == layer_views(layers@),
                whole == self@ + layer_list_bytes(views.skip(i as int)),
            decreases layers.len() - i,
        {
            let ghost written = self@;
            let layer: &Layer = &layers[i];
            self.write_string(layer.name.as_slice());
            self.write_flag(layer.lock);
            self.write_u8(layer.volume);
            self.write_u8(panning_to_byte(layer.panning));
            proof {
                let rest = views.skip(i as int);
                assert(rest[0] == layer@);
                assert(rest.skip(1) =~= views.skip(i + 1));
                let tail = layer_list_bytes(views.skip(i + 1));
                assert(self@ =~= written + layer_bytes(layer@));
                assert(written + (layer_bytes(layer@) + tail) =~= self@ + tail);
            }
            i += 1;
        }
        proof {
            assert(self@ + layer_list_bytes(views.skip(i as int)) =~= self@);
        }
    }
}

} // verus!
