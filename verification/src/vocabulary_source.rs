//! The vocabulary itself.

use vstd::prelude::*;

verus! {

/// The vocabulary source, embedded so the table and its documentation cannot
/// drift apart: there is only one artifact.
pub const VOCABULARY_TTL: &'static str = r#"@prefix log:  <https://ikigai-rs.dev/ns/log#> .
@prefix prov: <http://www.w3.org/ns/prov#> .
@prefix rdf:  <http://www.w3.org/1999/02/22-rdf-syntax-ns#> .
@prefix rdfs: <http://www.w3.org/2000/01/rdf-schema#> .
@prefix xsd:  <http://www.w3.org/2001/XMLSchema#> .

# The term table of the ikigai log. A class states the level it is written at and what its
# subject column means; a property states the column it is bound to and what its values
# are. A module extends all of it with rdfs:subClassOf and its own properties.

# ---------------------------------------------------------------------------------------
# The ladder. log:always ranks below every level that can be set, which is what makes the
# always-land set arithmetic instead of a list in code.
# ---------------------------------------------------------------------------------------

log:Level a rdfs:Class ; rdfs:label "Level" .

log:always a log:Level ; log:rank -1 ; rdfs:label "always" .
log:error  a log:Level ; log:rank 0 ; rdfs:label "error" .
log:warn   a log:Level ; log:rank 1 ; rdfs:label "warn" .
log:info   a log:Level ; log:rank 2 ; rdfs:label "info" .
log:debug  a log:Level ; log:rank 3 ; rdfs:label "debug" .
log:trace  a log:Level ; log:rank 4 ; rdfs:label "trace" .

# ---------------------------------------------------------------------------------------
# Structure
# ---------------------------------------------------------------------------------------

log:Segment a rdfs:Class ;
    rdfs:subClassOf prov:Bundle ;
    rdfs:label "Segment" ;
    rdfs:comment "One file of the log, and the named graph of its entries." .

log:Instance a rdfs:Class ;
    rdfs:subClassOf prov:SoftwareAgent ;
    rdfs:label "Instance" ;
    rdfs:comment "A process that writes, and what its entries are attributed to." .

log:Config a rdfs:Class ;
    rdfs:subClassOf prov:Entity ;
    rdfs:label "Config" ;
    rdfs:comment "The configuration that is in effect for a process." .

log:Destination a rdfs:Class ; rdfs:label "Destination" .

log:off     a log:Destination ; rdfs:label "off" .
log:console a log:Destination ; rdfs:label "console" .
log:file    a log:Destination ; rdfs:label "file" .

log:none rdfs:label "none" ;
    rdfs:comment "Stands for the segment of a log that is not open." .

# ---------------------------------------------------------------------------------------
# Entries
# ---------------------------------------------------------------------------------------

log:Entry a rdfs:Class ;
    rdfs:subClassOf prov:Activity ;
    log:minLevel log:info ;
    rdfs:label "Entry" ;
    rdfs:comment "One line of the log." .

log:Resolution a rdfs:Class ;
    rdfs:subClassOf log:Entry ;
    log:minLevel log:debug ;
    log:subjectPredicate log:resolved ;
    rdfs:label "Resolution" .

log:CacheHit a rdfs:Class ;
    rdfs:subClassOf log:Resolution ;
    log:minLevel log:trace ;
    rdfs:label "Cache hit" .

log:Message a rdfs:Class ;
    rdfs:subClassOf log:Entry ;
    log:minLevel log:info ;
    rdfs:label "Message" ;
    rdfs:comment "Prose. Its severity is carried by its subclass, never by a column." .

log:Warning a rdfs:Class ;
    rdfs:subClassOf log:Message ;
    log:minLevel log:warn ;
    rdfs:label "Warning" .

log:Error a rdfs:Class ;
    rdfs:subClassOf log:Message ;
    log:minLevel log:error ;
    rdfs:label "Error" .

# ---------------------------------------------------------------------------------------
# What always lands: every legitimate source of absence leaves a marker in the chain.
# ---------------------------------------------------------------------------------------

log:ProcessStart a rdfs:Class ;
    rdfs:subClassOf log:Entry ;
    log:minLevel log:always ;
    log:subjectPredicate prov:wasAssociatedWith ;
    rdfs:label "Process start" .

log:ProcessStop a rdfs:Class ;
    rdfs:subClassOf log:Entry ;
    log:minLevel log:always ;
    log:subjectPredicate prov:wasAssociatedWith ;
    rdfs:label "Process stop" .

log:Rotation a rdfs:Class ;
    rdfs:subClassOf log:Entry ;
    log:minLevel log:always ;
    rdfs:label "Rotation" .

log:Seal a rdfs:Class ;
    rdfs:subClassOf log:Entry ;
    log:minLevel log:always ;
    rdfs:label "Seal" .

log:ChainBroken a rdfs:Class ;
    rdfs:subClassOf log:Entry ;
    log:minLevel log:always ;
    rdfs:label "Chain broken" .

log:Tombstone a rdfs:Class ;
    rdfs:subClassOf log:Entry ;
    log:minLevel log:always ;
    rdfs:label "Tombstone" .

log:Dropped a rdfs:Class ;
    rdfs:subClassOf log:Entry ;
    log:minLevel log:always ;
    rdfs:label "Dropped" .

log:ConfigChange a rdfs:Class ;
    rdfs:subClassOf log:Entry ;
    log:minLevel log:always ;
    rdfs:label "Config change" .

log:LevelChange a rdfs:Class ;
    rdfs:subClassOf log:ConfigChange ;
    log:minLevel log:always ;
    rdfs:label "Level change" .

log:LevelChangeRejected a rdfs:Class ;
    rdfs:subClassOf log:Entry ;
    log:minLevel log:always ;
    rdfs:label "Level change rejected" .

log:CapabilityDenied a rdfs:Class ;
    rdfs:subClassOf log:Entry ;
    log:minLevel log:always ;
    rdfs:label "Capability denied" .

log:KeyChange a rdfs:Class ;
    rdfs:subClassOf log:Entry ;
    log:minLevel log:always ;
    rdfs:label "Key change" .

# ---------------------------------------------------------------------------------------
# The table itself
# ---------------------------------------------------------------------------------------

log:minLevel a rdf:Property ; rdfs:domain rdfs:Class ; rdfs:range log:Level .
log:rank a rdf:Property ; rdfs:domain log:Level ; rdfs:range xsd:integer .
log:keyName a rdf:Property ; rdfs:domain rdf:Property ; rdfs:range xsd:string .
log:subjectPredicate a rdf:Property ; rdfs:domain rdfs:Class ; rdfs:range rdf:Property .

# ---------------------------------------------------------------------------------------
# The columns
# ---------------------------------------------------------------------------------------

log:sequence a rdf:Property ; log:keyName "seq" ; rdfs:range xsd:integer .
log:processId a rdf:Property ; log:keyName "pid" ; rdfs:range xsd:integer .
log:configuredInstance a rdf:Property ; log:keyName "configured" ; rdfs:range log:Instance .
log:worker a rdf:Property ; log:keyName "worker" ; rdfs:range xsd:string .
log:span a rdf:Property ; log:keyName "span" ; rdfs:range xsd:integer .
log:parentSpan a rdf:Property ; log:keyName "parent" ; rdfs:range xsd:integer .
log:durationMs a rdf:Property ; log:keyName "dur" ; rdfs:range xsd:integer .
log:capability a rdf:Property ; log:keyName "cap" ; rdfs:range rdfs:Resource .
log:deniedCapability a rdf:Property ; log:keyName "denied" ; rdfs:range rdfs:Resource .
log:text a rdf:Property ; log:keyName "msg" ; rdfs:range xsd:string .
log:reason a rdf:Property ; log:keyName "reason" ; rdfs:range xsd:string .
log:count a rdf:Property ; log:keyName "count" ; rdfs:range xsd:integer .
log:changedKey a rdf:Property ; log:keyName "key" ; rdfs:range xsd:string .
log:changedFrom a rdf:Property ; log:keyName "from" ; rdfs:range xsd:string .
log:changedTo a rdf:Property ; log:keyName "to" ; rdfs:range xsd:string .
log:effective a rdf:Property ; log:keyName "effective" ; rdfs:range xsd:string .
log:configFile a rdf:Property ; log:keyName "file" ; rdfs:range xsd:string .
log:finding a rdf:Property ; log:keyName "finding" ; rdfs:range xsd:string .
log:successor a rdf:Property ; log:keyName "next" ; rdfs:range log:Segment .

# ---------------------------------------------------------------------------------------
# What no column states
# ---------------------------------------------------------------------------------------

log:segment a rdf:Property ; rdfs:domain log:Entry ; rdfs:range log:Segment .
log:subject a rdf:Property ; rdfs:domain log:Entry ; rdfs:range rdfs:Resource .
log:resolved a rdf:Property ; rdfs:subPropertyOf prov:used ; rdfs:range rdfs:Resource .
log:invoked a rdf:Property ; rdfs:subPropertyOf prov:wasInformedBy ; rdfs:range log:Entry .
log:undeclaredKey a rdf:Property ; rdfs:domain log:Entry ; rdfs:range xsd:string .
log:level a rdf:Property ; rdfs:range log:Level .
log:prevSeal a rdf:Property ; rdfs:domain log:Segment ; rdfs:range xsd:string .
log:firstSequence a rdf:Property ; rdfs:domain log:Seal ; rdfs:range xsd:integer .
log:lastSequence a rdf:Property ; rdfs:domain log:Seal ; rdfs:range xsd:integer .
log:destination a rdf:Property ; rdfs:domain log:Config ; rdfs:range log:Destination .
log:directory a rdf:Property ; rdfs:domain log:Config ; rdfs:range xsd:string .
log:instance a rdf:Property ; rdfs:domain log:Config ; rdfs:range log:Instance .
log:configLayer a rdf:Property ; rdfs:domain log:Config ; rdfs:range xsd:string .
log:currentSegment a rdf:Property ; rdfs:domain log:Config ; rdfs:range log:Segment .
"#;

} // verus!
