//! The configuration of a run: which backends to use and how much to say.

use vstd::prelude::*;
use crate::errors::{GzipError, GzipResult};

verus! {

/// Where the compressed bytes are read from.
#[derive(Debug, Clone, Copy, PartialEq, Eq, Structural)]
pub enum SourceKind {
    Vec,
    Buffer,
    VecBuf,
    Wide,
    Mapped,
}

/// Where the decompressed bytes are written to.
#[derive(Debug, Clone, Copy, PartialEq, Eq, Structural)]
pub enum SinkKind {
    File,
    FileBuf,
}

/// How the history of the output is kept.
#[derive(Debug, Clone, Copy, PartialEq, Eq, Structural)]
pub enum BufferKind {
    InMemory,
    Circular,
    Channel,
    Copy,
}

/// How the input is read bit by bit.
#[derive(Debug, Clone, Copy, PartialEq, Eq, Structural)]
pub enum AdapterKind {
    Bit,
    Wide,
}

/// The choices of a run, each by its number. The numbers are those a user
/// gives; one that stands for nothing makes the choice fail with
/// `InternalError`.
#[derive(Debug, Clone, Copy)]
pub struct Context {
    pub verbose: u8,
    pub sink: u8,
    pub source: u8,
    pub buffer: u8,
    pub adapter: u8,
}

/// The source that number `n` stands for.
pub open spec fn source_of(n: u8) -> GzipResult<SourceKind> {
    if n == 0 {
        Ok(SourceKind::Vec)
    } else if n == 1 {
        Ok(SourceKind::Buffer)
    } else if n == 2 {
        Ok(SourceKind::VecBuf)
    } else if n == 3 {
        Ok(SourceKind::Wide)
    } else if n == 4 {
        Ok(SourceKind::Mapped)
    } else {
        Err(GzipError::InternalError)
    }
}

/// The sink that number `n` stands for.
pub open spec fn sink_of(n: u8) -> GzipResult<SinkKind> {
    if n == 0 {
        Ok(SinkKind::File)
    } else if n == 1 {
        Ok(SinkKind::FileBuf)
    } else {
        Err(GzipError::InternalError)
    }
}

/// The output buffer that number `n` stands for.
pub open spec fn buffer_of(n: u8) -> GzipResult<BufferKind> {
    if n == 0 {
        Ok(BufferKind::InMemory)
    } else if n == 1 {
        Ok(BufferKind::Circular)
    } else if n == 2 {
        Ok(BufferKind::Channel)
    } else if n == 3 {
        Ok(BufferKind::Copy)
    } else {
        Err(GzipError::InternalError)
    }
}

/// The bit reader that number `n` stands for.
pub open spec fn adapter_of(n: u8) -> GzipResult<AdapterKind> {
    if n == 0 {
        Ok(AdapterKind::Bit)
    } else if n == 1 {
        Ok(AdapterKind::Wide)
    } else {
        Err(GzipError::InternalError)
    }
}

impl Context {
    /// The choices of a run for which the user gave none: no messages,
    /// the plain file sink, and the wide source, the copy buffer and the
    /// wide bit reader.
    pub fn new() -> (r: Self)
        ensures
            r.verbose == 0,
            r.sink == 0,
            r.source == 3,
            r.buffer == 3,
            r.adapter == 1,
    {
        Context { verbose: 0, sink: 0, source: 3, buffer: 3, adapter: 1 }
    }

    /// The sink to write to.
    pub fn choose_sink(&self) -> (r: GzipResult<SinkKind>)
        ensures
            r == sink_of(self.sink),
    {
        match self.sink {
            0 => Ok(SinkKind::File),
            1 => Ok(SinkKind::FileBuf),
            _ => Err(GzipError::InternalError),
        }
    }

    /// The output buffer to keep the history in.
    pub fn choose_buffer(&self) -> (r: GzipResult<BufferKind>)
        ensures
            r == buffer_of(self.buffer),
    {
        match self.buffer {
            0 => Ok(BufferKind::InMemory),
            1 => Ok(BufferKind::Circular),
            2 => Ok(BufferKind::Channel),
            3 => Ok(BufferKind::Copy),
            _ => Err(GzipError::InternalError),
        }
    }

    /// The source to read from.
    pub fn choose_source(&self) -> (r: GzipResult<SourceKind>)
        ensures
            r == source_of(self.source),
    {
        match self.source {
            0 => Ok(SourceKind::Vec),
            1 => Ok(SourceKind::Buffer),
            2 => Ok(SourceKind::VecBuf),
            3 => Ok(SourceKind::Wide),
            4 => Ok(SourceKind::Mapped),
            _ => Err(GzipError::InternalError),
        }
    }

    /// The bit reader to read with.
    pub fn choose_adapter(&self) -> (r: GzipResult<AdapterKind>)
        ensures
            r == adapter_of(self.adapter),
    {
        match self.adapter {
            0 => Ok(AdapterKind::Bit),
            1 => Ok(AdapterKind::Wide),
            _ => Err(GzipError::InternalError),
        }
    }
}

} // verus!
