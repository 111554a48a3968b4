//! What surrounds the calls into the vvenc (VVC) encoder library: the parameters that are set
//! by name, what its return codes mean, and the queue of decoded base pictures.
use crate::config::ColourInfo;
use crate::frame::Picture;
use crate::text;
use std::collections::VecDeque;
use vstd::prelude::*;

verus! {

/// One access unit of the base stream.
pub struct EncodedAu {
    pub data: Vec<u8>,
    pub poc: u64,
    pub rap: bool,
}

/// The name of the HDR mode for a transfer function and a matrix; empty for none.
pub open spec fn hdr_name(transfer: Seq<char>, matrix: Seq<char>) -> Seq<char> {
    if transfer == "smpte2084"@ {
        if matrix == "bt2020nc"@ {
            "pq_2020"@
        } else {
            "pq"@
        }
    } else if transfer == "arib-std-b67"@ {
        if matrix == "bt2020nc"@ {
            "hlg_2020"@
        } else {
            "hlg"@
        }
    } else {
        ""@
    }
}

/// The HDR mode for a colour description.
pub fn hdr_mode(colour: &ColourInfo) -> (mode: &'static str)
    ensures
        mode@ == hdr_name(colour.transfer_name@, colour.matrix_name@),
{
    let wide: bool = text::same(colour.matrix_name.as_str(), "bt2020nc");
    if text::same(colour.transfer_name.as_str(), "smpte2084") {
        if wide {
            "pq_2020"
        } else {
            "pq"
        }
    } else if text::same(colour.transfer_name.as_str(), "arib-std-b67") {
        if wide {
            "hlg_2020"
        } else {
            "hlg"
        }
    } else {
        ""
    }
}

/// Names and values as texts.
pub open spec fn params_view(v: Seq<(String, String)>) -> Seq<(Seq<char>, Seq<char>)> {
    Seq::new(v.len(), |i: int| (v[i].0@, v[i].1@))
}

/// The parameters of an encoder, in the order in which they are set.
pub open spec fn encoder_settings(
    threads: int,
    refresh_sec: int,
    colour: Option<ColourInfo>,
    multithread: bool,
) -> Seq<(Seq<char>, Seq<char>)> {
    let refresh = if refresh_sec > 1 {
        refresh_sec
    } else {
        1
    };
    let all = seq![
        ("preset"@, "faster"@),
        ("threads"@, text::signed_decimal(threads)),
        (
            "mtprofile"@,
            if multithread {
                "3"@
            } else {
                "0"@
            },
        ),
        ("refreshsec"@, text::signed_decimal(refresh)),
        ("decodingrefreshtype"@, "idr"@),
        ("gopsize"@, "16"@),
        ("inputbitdepth"@, "10"@),
        ("internalbitdepth"@, "10"@),
        ("POC0IDR"@, "1"@),
    ];
    match colour {
        Some(c) => {
            let mode = hdr_name(c.transfer_name@, c.matrix_name@);
            if mode.len() > 0 {
                all.push(("hdr"@, mode))
            } else {
                all
            }
        },
        None => all,
    }
}

fn setting(params: &mut Vec<(String, String)>, name: &str, value: &str)
    ensures
        params_view(final(params)@) == params_view(old(params)@).push((name@, value@)),
{
    let ghost before = params_view(params@);
    params.push((name.to_string(), value.to_string()));
    assert(params_view(params@) =~= before.push((name@, value@)));
}

/// The parameters of an encoder.
pub fn vvenc_params(
    threads: i32,
    refresh_sec: i32,
    colour: Option<&ColourInfo>,
    multithread: bool,
) -> (params: Vec<(String, String)>)
    ensures
        params_view(params@) == encoder_settings(
            threads as int,
            refresh_sec as int,
            match colour {
                Some(c) => Some(*c),
                None => None,
            },
            multithread,
        ),
{
    let mut params: Vec<(String, String)> = Vec::new();
    let refresh: i32 = if refresh_sec > 1 {
        refresh_sec
    } else {
        1
    };
    let mut threads_text = String::new();
    text::push_signed(&mut threads_text, threads as i64);
    let mut refresh_text = String::new();
    text::push_signed(&mut refresh_text, refresh as i64);
    proof {
        assert(threads_text@ =~= text::signed_decimal(threads as int));
        assert(refresh_text@ =~= text::signed_decimal(refresh as int));
    }
    setting(&mut params, "preset", "faster");
    setting(&mut params, "threads", threads_text.as_str());
    if multithread {
        setting(&mut params, "mtprofile", "3");
    } else {
        setting(&mut params, "mtprofile", "0");
    }
    setting(&mut params, "refreshsec", refresh_text.as_str());
    setting(&mut params, "decodingrefreshtype", "idr");
    setting(&mut params, "gopsize", "16");
    setting(&mut params, "inputbitdepth", "10");
    setting(&mut params, "internalbitdepth", "10");
    setting(&mut params, "POC0IDR", "1");
    match colour {
        Some(c) => {
            let mode = hdr_mode(c);
            if mode.unicode_len() > 0 {
                setting(&mut params, "hdr", mode);
            }
        },
        None => {},
    }
    assert(params_view(params@) =~= encoder_settings(
        threads as int,
        refresh_sec as int,
        match colour {
            Some(c) => Some(*c),
            None => None,
        },
        multithread,
    ));
    params
}

/// A prefix and a return code.
pub open spec fn code_text(prefix: Seq<char>, rc: int) -> Seq<char> {
    prefix + text::signed_decimal(rc)
}

fn code_message(prefix: &str, rc: i32) -> (s: String)
    ensures
        s@ == code_text(prefix@, rc as int),
{
    let mut s = prefix.to_string();
    text::push_signed(&mut s, rc as i64);
    s
}

/// The first bytes of a buffer.
fn used_bytes(buffer: &[u8], used: usize) -> (v: Vec<u8>)
    requires
        used <= buffer@.len(),
    ensures
        v@ == buffer@.subrange(0, used as int),
{
    let mut v: Vec<u8> = Vec::new();
    let mut i: usize = 0;
    assert(v@ =~= buffer@.subrange(0, 0));
    while i < used
        invariant
            i <= used <= buffer@.len(),
            v@ == buffer@.subrange(0, i as int),
        decreases used - i,
    {
        v.push(buffer[i]);
        i = i + 1;
        assert(v@ =~= buffer@.subrange(0, i as int));
    }
    v
}

/// The parameter sets (VPS/SPS/PPS) that a call has left in the payload buffer.
pub fn header_payload(rc: i32, used: i32, buffer: &[u8]) -> (r: Result<Vec<u8>, String>)
    ensures
        match r {
            Ok(v) => rc == 0 && 0 <= used <= buffer@.len() && v@ == buffer@.subrange(
                0,
                used as int,
            ),
            Err(e) => if rc != 0 {
                e@ == code_text("vvenc_get_headers failed: "@, rc as int)
            } else {
                (used < 0 || used > buffer@.len()) && e@ == "vvenc header payload overflow"@
            },
        },
{
    if rc != 0 {
        return Err(code_message("vvenc_get_headers failed: ", rc));
    }
    if used < 0 || used as u64 > buffer.len() as u64 {
        return Err("vvenc header payload overflow".to_string());
    }
    Ok(used_bytes(buffer, used as usize))
}

/// The access unit that encoding one frame has left in the payload buffer; none where the
/// encoder held the frame back.
pub fn frame_payload(rc: i32, used: i32, buffer: &[u8], poc: u64, rap: bool) -> (r: Result<
    Option<EncodedAu>,
    String,
>)
    ensures
        match r {
            Ok(Some(au)) => {
                &&& rc == 0
                &&& 0 < used <= buffer@.len()
                &&& au.data@ == buffer@.subrange(0, used as int)
                &&& au.poc == poc
                &&& au.rap == rap
            },
            Ok(None) => rc == 0 && used <= 0,
            Err(e) => if rc != 0 {
                e@ == code_text("vvenc_encode failed: "@, rc as int)
            } else {
                used > 0 && used > buffer@.len() && e@ == "vvenc AU payload overflow"@
            },
        },
{
    if rc != 0 {
        return Err(code_message("vvenc_encode failed: ", rc));
    }
    if used <= 0 {
        return Ok(None);
    }
    if used as u64 > buffer.len() as u64 {
        return Err("vvenc AU payload overflow".to_string());
    }
    Ok(Some(EncodedAu { data: used_bytes(buffer, used as usize), poc, rap }))
}

/// One step of the flush at the end of a stream: takes the access unit that the call has left
/// in the payload buffer, and says whether the flush is over. An error after the first access
/// unit is the end of the stream: the encoder reports it once the flush has completed.
pub fn flush_step(
    out: &mut Vec<EncodedAu>,
    rc: i32,
    used: i32,
    done: bool,
    buffer: &[u8],
    poc: u64,
    rap: bool,
) -> (r: Result<bool, String>)
    requires
        used <= buffer@.len(),
    ensures
        match r {
            Err(e) => {
                &&& rc != 0
                &&& old(out)@.len() == 0
                &&& final(out)@ == old(out)@
                &&& e@ == code_text("vvenc flush failed: "@, rc as int)
            },
            Ok(over) => if rc != 0 {
                old(out)@.len() > 0 && over && final(out)@ == old(out)@
            } else {
                &&& over == done
                &&& if used > 0 {
                    &&& final(out)@.len() == old(out)@.len() + 1
                    &&& final(out)@.drop_last() == old(out)@
                    &&& final(out)@.last().data@ == buffer@.subrange(0, used as int)
                    &&& final(out)@.last().poc == poc
                    &&& final(out)@.last().rap == rap
                } else {
                    final(out)@ == old(out)@
                }
            },
        },
{
    if rc != 0 {
        if out.len() > 0 {
            return Ok(true);
        }
        return Err(code_message("vvenc flush failed: ", rc));
    }
    if used > 0 {
        let ghost before = out@;
        out.push(EncodedAu { data: used_bytes(buffer, used as usize), poc, rap });
        assert(out@.drop_last() =~= before);
    }
    Ok(done)
}

/// Frame queue between the decoder and the caller, first in first out.
pub struct DecodedQueue {
    pub frames: VecDeque<Picture>,
    pub done: bool,
}

/// What a reader of the queue gets.
pub enum Popped {
    /// The oldest frame.
    Frame(Picture),
    /// No frame is left and none will come.
    Ended,
    /// No frame is left, but more may come.
    Wait,
}

impl DecodedQueue {
    pub fn new() -> (q: DecodedQueue)
        ensures
            q.frames@ == Seq::<Picture>::empty(),
            !q.done,
    {
        DecodedQueue { frames: VecDeque::new(), done: false }
    }

    /// Pop a decoded frame, if one has arrived.
    pub fn pop(&mut self) -> (r: Popped)
        ensures
            final(self).done == old(self).done,
            match r {
                Popped::Frame(f) => {
                    &&& old(self).frames@.len() > 0
                    &&& f == old(self).frames@[0]
                    &&& final(self).frames@ == old(self).frames@.subrange(
                        1,
                        old(self).frames@.len() as int,
                    )
                },
                Popped::Ended => old(self).frames@.len() == 0 && old(self).done && final(self).frames@ == old(self).frames@,
                Popped::Wait => old(self).frames@.len() == 0 && !old(self).done && final(self).frames@ == old(self).frames@,
            },
    {
        match self.frames.pop_front() {
            Some(f) => Popped::Frame(f),
            None => if self.done {
                Popped::Ended
            } else {
                Popped::Wait
            },
        }
    }

    /// Push a decoded frame.
    pub fn push(&mut self, f: Picture)
        ensures
            final(self).frames@ == old(self).frames@.push(f),
            final(self).done == old(self).done,
    {
        self.frames.push_back(f);
    }

    /// Mark the stream ended.
    pub fn end(&mut self)
        ensures
            final(self).frames@ == old(self).frames@,
            final(self).done,
    {
        self.done = true;
    }
}

} // verus!
